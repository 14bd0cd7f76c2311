//! Shared storage and persistence for loot-backed block containers.
use vstd::prelude::*;

use crate::block_entity::base_container::{
    empty_items, empty_slots, kept_slots, loaded_items, loaded_lock, loaded_name, collects,
    law_saved_container_is_read_back, savable, saves_list, with_entry, without_components,
    BaseContainer, Storage,
};
use crate::block_entity::components::BlockEntityComponentInput;
use crate::data_components::map::{with_component, DataComponentMap};
use crate::data_components::patch::{ComponentPatchEntry, DataComponentPatch};
use crate::data_components::{
    number_component, number_of, record_in, Component, ComponentData, ComponentKind,
    DataComponentType,
};
use crate::ident::{law_text_is_parsed_back, parse_id, vanilla_id, Id, Identifier};
use crate::item_nbt::{kept, law_saved_stack_is_read_back, loaded_stack, saves_stack, writable};
use crate::item_stack::{stacks_of, Item, ItemStack, Stack};
use crate::keyed::{by_key, find, lemma_find};
use crate::loot_table::conditions::LootContext;
use crate::loot_table::entries::LootTable;
use crate::loot_table::error::{ExplorationMapRequest, LootError, LootResult};
use crate::loot_table::functions::{Eval, ExplorationMapResolver, LootState, Lookup};
use crate::loot_table::requirements::{
    law_checked_table_can_be_evaluated, registry_fits, table_fits,
};
use crate::nbt::{
    law_lookup_after_insert, lemma_list_view, list_view, lookup, without, Nbt, NbtCompound, NbtTag,
};
use crate::random::Random;
use crate::registry::Registry;

verus! {

/// An exploration map that waits for its lookup, as a mathematical value.
pub ghost struct Awaited {
    pub marker: i32,
    pub request: Lookup,
    pub fallback: Stack,
}

/// An exploration map that waits for its lookup. Until then a placeholder whose map
/// number is the marker stands among the items.
#[derive(Debug)]
pub struct PendingExplorationMap {
    pub marker: i32,
    pub request: ExplorationMapRequest,
    /// The stack that takes the placeholder's place where nothing is found.
    pub fallback: ItemStack,
}

impl View for PendingExplorationMap {
    type V = Awaited;

    open spec fn view(&self) -> Awaited {
        Awaited { marker: self.marker, request: self.request@, fallback: self.fallback@ }
    }
}

impl PendingExplorationMap {
    /// A copy of this map.
    pub fn copy(&self) -> (map: Self)
        ensures
            map@ == self@,
    {
        PendingExplorationMap {
            marker: self.marker,
            request: self.request.clone(),
            fallback: self.fallback.copy(),
        }
    }
}

/// The maps of a list.
pub open spec fn awaited(maps: Seq<PendingExplorationMap>) -> Seq<Awaited> {
    Seq::new(maps.len(), |i: int| maps[i]@)
}

/// Generated loot that waits for exploration maps, as a mathematical value.
#[verifier::ext_equal]
pub ghost struct Waiting {
    pub items: Seq<Stack>,
    pub maps: Seq<Awaited>,
}

/// Generated loot that waits for exploration maps.
#[derive(Debug)]
pub struct PendingLoot {
    pub items: Vec<ItemStack>,
    pub maps: Vec<PendingExplorationMap>,
}

impl View for PendingLoot {
    type V = Waiting;

    open spec fn view(&self) -> Waiting {
        Waiting { items: stacks_of(self.items@), maps: awaited(self.maps@) }
    }
}

/// A copy of a list of maps.
pub fn copy_maps(maps: &Vec<PendingExplorationMap>) -> (copied: Vec<PendingExplorationMap>)
    ensures
        awaited(copied@) == awaited(maps@),
{
    let mut copied: Vec<PendingExplorationMap> = Vec::new();
    let mut i: usize = 0;
    while i < maps.len()
        invariant
            i <= maps.len(),
            copied@.len() == i,
            forall|j: int| 0 <= j < i ==> (#[trigger] copied@[j])@ == maps@[j]@,
        decreases maps.len() - i,
    {
        copied.push(maps[i].copy());
        i = i + 1;
    }
    assert(awaited(copied@) =~= awaited(maps@));
    copied
}

/// Whether a stack is the placeholder of a marker.
pub open spec fn marked(stack: Stack, marker: i32) -> bool {
    number_of(stack.component(vanilla_id("map_id"@)), ComponentKind::MapId) == Some(marker)
}

/// The number of placeholders of a marker.
pub open spec fn marked_count(items: Seq<Stack>, marker: i32) -> nat
    decreases items.len(),
{
    if items.len() == 0 {
        0
    } else {
        marked_count(items.drop_last(), marker) + (if marked(items.last(), marker) {
            1nat
        } else {
            0
        })
    }
}

/// Every map has exactly one placeholder among the items.
pub open spec fn markers_match(items: Seq<Stack>, maps: Seq<Awaited>) -> bool {
    forall|i: int| 0 <= i < maps.len() ==> marked_count(items, (#[trigger] maps[i]).marker) == 1
}

/// The place of the first placeholder of a marker, or the number of items where
/// there is none.
pub open spec fn marked_place(items: Seq<Stack>, marker: i32) -> int
    decreases items.len(),
{
    if items.len() == 0 || marked(items[0], marker) {
        0
    } else {
        1 + marked_place(items.drop_first(), marker)
    }
}

fn is_marked(stack: &ItemStack, marker: i32) -> (is_marked: bool)
    ensures
        is_marked == marked(stack@, marker),
{
    match stack.get_number("map_id", ComponentKind::MapId) {
        Some(id) => id == marker,
        None => false,
    }
}

/// Whether there is exactly one placeholder of a marker.
fn marked_once(items: &Vec<ItemStack>, marker: i32) -> (once: bool)
    ensures
        once == (marked_count(stacks_of(items@), marker) == 1),
{
    let ghost stacks = stacks_of(items@);
    let mut count: usize = 0;
    let mut i: usize = 0;
    while i < items.len()
        invariant
            i <= items.len(),
            count <= i,
            stacks == stacks_of(items@),
            count == marked_count(stacks.take(i as int), marker),
        decreases items.len() - i,
    {
        assert(stacks.take(i + 1).drop_last() =~= stacks.take(i as int));
        assert(stacks.take(i + 1).last() == items@[i as int]@);
        if is_marked(&items[i], marker) {
            count = count + 1;
        }
        i = i + 1;
    }
    assert(stacks.take(i as int) =~= stacks);
    count == 1
}

/// Whether every map has exactly one placeholder among the items.
fn check_markers(items: &Vec<ItemStack>, maps: &Vec<PendingExplorationMap>) -> (matched: bool)
    ensures
        matched == markers_match(stacks_of(items@), awaited(maps@)),
{
    let mut i: usize = 0;
    while i < maps.len()
        invariant
            i <= maps.len(),
            forall|j: int|
                0 <= j < i ==> marked_count(
                    stacks_of(items@),
                    (#[trigger] awaited(maps@)[j]).marker,
                ) == 1,
        decreases maps.len() - i,
    {
        assert(awaited(maps@)[i as int] == maps@[i as int]@);
        if !marked_once(items, maps[i].marker) {
            return false;
        }
        i = i + 1;
    }
    true
}

/// Finds the first placeholder of a marker.
pub fn find_marked(items: &Vec<ItemStack>, marker: i32) -> (place: Option<usize>)
    ensures
        match place {
            Some(place) => place < items@.len() && place == marked_place(
                stacks_of(items@),
                marker,
            ),
            None => marked_place(stacks_of(items@), marker) == items@.len(),
        },
{
    let ghost stacks = stacks_of(items@);
    let mut i: usize = 0;
    assert(stacks.skip(0) =~= stacks);
    while i < items.len()
        invariant
            i <= items.len(),
            stacks == stacks_of(items@),
            marked_place(stacks, marker) == i + marked_place(stacks.skip(i as int), marker),
        decreases items.len() - i,
    {
        assert(stacks.skip(i as int).drop_first() =~= stacks.skip(i + 1));
        assert(stacks.skip(i as int)[0] == items@[i as int]@);
        if is_marked(&items[i], marker) {
            return Some(i);
        }
        i = i + 1;
    }
    None
}

/// Puts placeholders in the place of exploration maps, and notes what they wait for.
#[derive(Debug)]
pub struct PendingMapResolver {
    pub maps: Vec<PendingExplorationMap>,
    /// The item that placeholders are of.
    pub filled_map: Item,
}

/// What a resolver noted, as a mathematical value.
#[verifier::ext_equal]
pub ghost struct Noted {
    pub maps: Seq<Awaited>,
    pub filled_map: Item,
}

/// The marker of the map that is noted after `count` others: markers count up from -1.
pub open spec fn marker_after(count: int) -> int {
    count - 1
}

/// The placeholder of a marker.
pub open spec fn placeholder(filled_map: Item, marker: i32) -> Stack {
    Stack::of(filled_map, 1).with(
        vanilla_id("map_id"@),
        number_component(ComponentKind::MapId, marker),
    )
}

impl ExplorationMapResolver for PendingMapResolver {
    type State = Noted;

    open spec fn state(&self) -> Noted {
        Noted { maps: awaited(self.maps@), filled_map: self.filled_map }
    }

    open spec fn resolved(state: Noted, request: Lookup, item: Stack) -> (
        LootResult<Option<Stack>>,
        Noted,
    ) {
        if state.maps.len() > i32::MAX {
            (Err(LootError::TooManyExplorationMaps), state)
        } else {
            let marker = marker_after(state.maps.len() as int) as i32;
            (
                Ok(Some(placeholder(state.filled_map, marker))),
                Noted {
                    maps: state.maps.push(Awaited { marker, request, fallback: item }),
                    filled_map: state.filled_map,
                },
            )
        }
    }

    fn resolve(&mut self, request: &ExplorationMapRequest, original: &ItemStack) -> (map: LootResult<
        Option<ItemStack>,
    >) {
        if self.maps.len() > i32::MAX as usize {
            return Err(LootError::TooManyExplorationMaps);
        }
        let marker: i32 = self.maps.len() as i32 - 1;
        let mut map = ItemStack::new(&self.filled_map);
        map.set("map_id", ComponentData::number(ComponentKind::MapId, marker));
        let ghost before = awaited(self.maps@);
        let noted = PendingExplorationMap {
            marker,
            request: request.clone(),
            fallback: original.copy(),
        };
        let ghost added = noted@;
        self.maps.push(noted);
        assert(awaited(self.maps@) =~= before.push(added));
        Ok(Some(map))
    }
}

/// The markers count up from -1.
pub open spec fn numbered(maps: Seq<Awaited>) -> bool {
    forall|i: int| 0 <= i < maps.len() ==> (#[trigger] maps[i]).marker == marker_after(i)
}

/// No two markers are the same. The first one is negative, and no other one is.
pub proof fn law_markers_are_distinct(state: Noted, request: Lookup, item: Stack)
    requires
        numbered(state.maps),
        state.maps.len() <= i32::MAX,
    ensures
        numbered(PendingMapResolver::resolved(state, request, item).1.maps),
        ({
            let maps = PendingMapResolver::resolved(state, request, item).1.maps;
            &&& maps.last().marker < 0 <==> state.maps.len() == 0
            &&& forall|i: int|
                0 <= i < state.maps.len() ==> (#[trigger] maps[i]).marker != maps.last().marker
        }),
{
    let maps = PendingMapResolver::resolved(state, request, item).1.maps;
    assert forall|i: int| 0 <= i < maps.len() implies (#[trigger] maps[i]).marker == marker_after(
        i,
    ) by {
        if i < state.maps.len() {
            assert(maps[i] == state.maps[i]);
        }
    }
}

/// A loot-backed container as a mathematical value.
#[verifier::ext_equal]
pub ghost struct Randomizable {
    pub base: Storage,
    pub loot_table: Option<Id>,
    pub seed: i64,
    pub pending: Option<Waiting>,
    pub running: Option<u64>,
    pub next_token: u64,
    pub removed: bool,
}

/// Inventory data shared by randomizable block containers.
#[derive(Debug)]
pub struct RandomizableContainer {
    pub base: BaseContainer,
    pub loot_table: Option<Identifier>,
    pub loot_table_seed: i64,
    pub pending_loot: Option<PendingLoot>,
    pub running_token: Option<u64>,
    pub next_token: u64,
    pub removed: bool,
}

impl View for RandomizableContainer {
    type V = Randomizable;

    open spec fn view(&self) -> Randomizable {
        Randomizable {
            base: self.base@,
            loot_table: match self.loot_table {
                Some(key) => Some(key@),
                None => None,
            },
            seed: self.loot_table_seed,
            pending: match self.pending_loot {
                Some(pending) => Some(pending@),
                None => None,
            },
            running: self.running_token,
            next_token: self.next_token,
            removed: self.removed,
        }
    }
}

/// The name that a saved container keeps its waiting loot under.
pub open spec fn pending_key() -> Seq<char> {
    "steel:pending_loot"@
}

/// The identifier that a text entry holds.
pub open spec fn loaded_id(saved: Seq<(Seq<char>, Nbt)>, name: Seq<char>) -> Option<Id> {
    match lookup(saved, name) {
        Some(Nbt::Text(text)) => parse_id(text),
        _ => None,
    }
}

/// The waiting map that a saved compound denotes.
pub open spec fn loaded_map(saved: Seq<(Seq<char>, Nbt)>, registry: Registry) -> Option<Awaited> {
    match (
        lookup(saved, "Marker"@),
        loaded_id(saved, "Destination"@),
        loaded_id(saved, "Decoration"@),
        lookup(saved, "Fallback"@),
        lookup(saved, "Zoom"@),
        lookup(saved, "SearchRadius"@),
        lookup(saved, "SkipExistingChunks"@),
    ) {
        (
            Some(Nbt::Int(marker)),
            Some(destination),
            Some(decoration),
            Some(Nbt::Compound(fallback)),
            Some(Nbt::Int(zoom)),
            Some(Nbt::Int(search_radius)),
            Some(Nbt::Byte(skip)),
        ) => match loaded_stack(fallback, registry) {
            Some(fallback) => Some(
                Awaited {
                    marker,
                    request: Lookup {
                        destination,
                        decoration,
                        zoom,
                        search_radius,
                        skip_existing_chunks: skip != 0,
                    },
                    fallback,
                },
            ),
            None => None,
        },
        _ => None,
    }
}

/// The waiting maps that saved compounds denote: none at all where one of them
/// denotes none, or has a marker that is not negative or occurs twice.
pub open spec fn loaded_maps(tags: Seq<Nbt>, registry: Registry) -> Option<Seq<Awaited>>
    decreases tags.len(),
{
    if tags.len() == 0 {
        Some(Seq::empty())
    } else {
        match (loaded_maps(tags.drop_last(), registry), tags.last()) {
            (Some(before), Nbt::Compound(saved)) => match loaded_map(saved, registry) {
                Some(map) => if map.marker < 0 && !has_marker(before, map.marker) {
                    Some(before.push(map))
                } else {
                    None
                },
                None => None,
            },
            _ => None,
        }
    }
}

/// Whether one of the maps has a marker.
pub open spec fn has_marker(maps: Seq<Awaited>, marker: i32) -> bool {
    exists|i: int| 0 <= i < maps.len() && (#[trigger] maps[i]).marker == marker
}

/// The waiting loot that a saved compound denotes: none without maps, or where the
/// placeholders among its items do not match them.
pub open spec fn loaded_pending(
    saved: Seq<(Seq<char>, Nbt)>,
    size: nat,
    registry: Registry,
) -> Option<Waiting> {
    let items = loaded_items(saved, size, registry);
    match lookup(saved, "Maps"@) {
        Some(Nbt::List(tags)) => match loaded_maps(tags, registry) {
            Some(maps) => if maps.len() > 0 && markers_match(items, maps) {
                Some(Waiting { items, maps })
            } else {
                None
            },
            None => None,
        },
        _ => None,
    }
}

impl Randomizable {
    /// The container after its saved form was read.
    pub open spec fn loaded(self, saved: Seq<(Seq<char>, Nbt)>, registry: Registry) -> Randomizable {
        let size = self.base.items.len();
        let loot_table = loaded_id(saved, "LootTable"@);
        Randomizable {
            base: Storage {
                items: if loot_table is Some {
                    empty_slots(size)
                } else {
                    loaded_items(saved, size, registry)
                },
                custom_name: loaded_name(saved),
                lock: loaded_lock(saved),
            },
            loot_table,
            seed: match lookup(saved, "LootTableSeed"@) {
                Some(Nbt::Long(seed)) => seed,
                _ => 0,
            },
            pending: if loot_table is Some {
                match lookup(saved, pending_key()) {
                    Some(Nbt::Compound(pending)) => loaded_pending(pending, size, registry),
                    _ => None,
                }
            } else {
                None
            },
            running: None,
            next_token: self.next_token,
            removed: false,
        }
    }
}

/// Reads an identifier from a text entry.
fn read_id(saved: &NbtCompound, name: &str) -> (id: Option<Identifier>)
    ensures
        match id {
            Some(id) => loaded_id(saved@, name@) == Some(id@),
            None => loaded_id(saved@, name@) is None,
        },
{
    match saved.get_text(name) {
        Some(text) => Identifier::parse(text.as_str()),
        None => None,
    }
}

fn read_map(saved: &NbtCompound, registry: &Registry) -> (map: Option<PendingExplorationMap>)
    ensures
        match map {
            Some(map) => loaded_map(saved@, *registry) == Some(map@),
            None => loaded_map(saved@, *registry) is None,
        },
{
    let destination = read_id(saved, "Destination");
    let decoration = read_id(saved, "Decoration");
    let fallback = match saved.get_compound("Fallback") {
        Some(fallback) => ItemStack::from_nbt(fallback, registry),
        None => None,
    };
    match (
        saved.get_int("Marker"),
        destination,
        decoration,
        fallback,
        saved.get_int("Zoom"),
        saved.get_int("SearchRadius"),
        saved.get_byte("SkipExistingChunks"),
    ) {
        (
            Some(marker),
            Some(destination),
            Some(decoration),
            Some(fallback),
            Some(zoom),
            Some(search_radius),
            Some(skip),
        ) => Some(
            PendingExplorationMap {
                marker,
                request: ExplorationMapRequest {
                    destination,
                    decoration,
                    zoom,
                    search_radius,
                    skip_existing_chunks: skip != 0,
                },
                fallback,
            },
        ),
        _ => None,
    }
}

proof fn lemma_loading_maps_stops(tags: Seq<Nbt>, registry: Registry, count: int)
    requires
        0 <= count <= tags.len(),
        loaded_maps(tags.take(count), registry) is None,
    ensures
        loaded_maps(tags, registry) is None,
    decreases tags.len() - count,
{
    if count < tags.len() {
        assert(tags.take(count + 1).drop_last() =~= tags.take(count));
        lemma_loading_maps_stops(tags, registry, count + 1);
    } else {
        assert(tags.take(count) =~= tags);
    }
}

impl RandomizableContainer {
    pub fn new(size: usize) -> (container: Self)
        ensures
            container@ == (Randomizable {
                base: Storage {
                    items: empty_slots(size as nat),
                    custom_name: None,
                    lock: None,
                },
                loot_table: None,
                seed: 0,
                pending: None,
                running: None,
                next_token: 0,
                removed: false,
            }),
    {
        RandomizableContainer {
            base: BaseContainer::new(size),
            loot_table: None,
            loot_table_seed: 0,
            pending_loot: None,
            running_token: None,
            next_token: 0,
            removed: false,
        }
    }

    /// Reads the saved form. A container with a loot table has no items of its own;
    /// waiting loot that cannot be read is discarded.
    pub fn load(&mut self, saved: &NbtCompound, registry: &Registry)
        ensures
            final(self)@ == old(self)@.loaded(saved@, *registry),
    {
        self.base.load_metadata(saved);
        self.loot_table = read_id(saved, "LootTable");
        self.loot_table_seed = match saved.get_long("LootTableSeed") {
            Some(seed) => seed,
            None => 0,
        };
        self.pending_loot = None;
        self.running_token = None;
        self.removed = false;
        if self.loot_table.is_some() {
            self.base.clear_items();
            if let Some(pending) = saved.get_compound("steel:pending_loot") {
                let size: usize = self.base.items().len();
                self.pending_loot = RandomizableContainer::load_pending_loot(
                    pending,
                    size,
                    registry,
                );
            }
        } else {
            self.base.load_items(saved, registry);
        }
    }

    /// Reads waiting loot.
    pub fn load_pending_loot(saved: &NbtCompound, size: usize, registry: &Registry) -> (pending:
        Option<PendingLoot>)
        ensures
            match pending {
                Some(pending) => loaded_pending(saved@, size as nat, *registry) == Some(pending@),
                None => loaded_pending(saved@, size as nat, *registry) is None,
            },
    {
        let items = BaseContainer::items_from_nbt(saved, size, registry);
        let tags = match saved.get_list("Maps") {
            Some(tags) => tags,
            None => {
                return None;
            },
        };
        let ghost list = lookup(saved@, "Maps"@)->Some_0->List_0;
        let mut maps: Vec<PendingExplorationMap> = Vec::new();
        let mut i: usize = 0;
        assert(list.take(0) =~= Seq::empty());
        assert(awaited(maps@) =~= Seq::empty());
        while i < tags.len()
            invariant
                i <= tags.len(),
                tags@.len() == list.len(),
                lookup(saved@, "Maps"@) == Some(Nbt::List(list)),
                forall|j: int| 0 <= j < list.len() ==> (#[trigger] tags@[j])@ == list[j],
                loaded_maps(list.take(i as int), *registry) == Some(awaited(maps@)),
            decreases tags.len() - i,
        {
            let ghost before = awaited(maps@);
            proof {
                assert(list.take(i + 1).drop_last() =~= list.take(i as int));
                assert(list.take(i + 1).last() == tags@[i as int]@);
                if loaded_maps(list.take(i + 1), *registry) is None {
                    lemma_loading_maps_stops(list, *registry, i + 1);
                }
            }
            let map = match &tags[i] {
                NbtTag::Compound(compound) => match read_map(compound, registry) {
                    Some(map) => map,
                    None => {
                        return None;
                    },
                },
                _ => {
                    return None;
                },
            };
            if map.marker >= 0 {
                return None;
            }
            let mut k: usize = 0;
            while k < maps.len()
                invariant
                    k <= maps.len(),
                    before == awaited(maps@),
                    forall|j: int| 0 <= j < k ==> (#[trigger] before[j]).marker != map.marker,
                    loaded_maps(list.take(i + 1), *registry) is None ==> loaded_maps(
                        list,
                        *registry,
                    ) is None,
                    has_marker(before, map.marker) ==> loaded_maps(
                        list.take(i + 1),
                        *registry,
                    ) is None,
                    lookup(saved@, "Maps"@) == Some(Nbt::List(list)),
                decreases maps.len() - k,
            {
                assert(before[k as int] == maps@[k as int]@);
                if maps[k].marker == map.marker {
                    assert(has_marker(before, map.marker));
                    return None;
                }
                k = k + 1;
            }
            let ghost added = map@;
            maps.push(map);
            assert(awaited(maps@) =~= before.push(added));
            i = i + 1;
        }
        assert(list.take(i as int) =~= list);
        if maps.len() == 0 || !check_markers(&items, &maps) {
            return None;
        }
        Some(PendingLoot { items, maps })
    }
}

/// A compound that a waiting map is saved as.
pub open spec fn saves_map(tag: Nbt, map: Awaited, types: Seq<DataComponentType>) -> bool {
    exists|fallback: Seq<(Seq<char>, Nbt)>|
        #[trigger] saves_stack(fallback, map.fallback, types) && tag == Nbt::Compound(
            saved_map(map, fallback),
        )
}

/// The entries of a saved waiting map.
pub open spec fn saved_map(map: Awaited, fallback: Seq<(Seq<char>, Nbt)>) -> Seq<
    (Seq<char>, Nbt),
> {
    seq![
        ("Marker"@, Nbt::Int(map.marker)),
        ("Destination"@, Nbt::Text(map.request.destination.text())),
        ("Decoration"@, Nbt::Text(map.request.decoration.text())),
        ("Zoom"@, Nbt::Int(map.request.zoom)),
        ("SearchRadius"@, Nbt::Int(map.request.search_radius)),
        (
            "SkipExistingChunks"@,
            Nbt::Byte(
                if map.request.skip_existing_chunks {
                    1
                } else {
                    0
                },
            ),
        ),
        ("Fallback"@, Nbt::Compound(fallback)),
    ]
}

/// Tags that waiting maps are saved as, in order.
pub open spec fn saves_maps(
    tags: Seq<Nbt>,
    maps: Seq<Awaited>,
    types: Seq<DataComponentType>,
) -> bool {
    &&& tags.len() == maps.len()
    &&& forall|i: int| 0 <= i < maps.len() ==> saves_map(#[trigger] tags[i], maps[i], types)
}

/// A compound that waiting loot is saved as.
pub open spec fn saves_pending(
    saved: Seq<(Seq<char>, Nbt)>,
    pending: Waiting,
    types: Seq<DataComponentType>,
) -> bool {
    exists|items: Seq<(Seq<char>, Nbt)>, tags: Seq<Nbt>|
        #[trigger] saves_list(items, Seq::empty(), pending.items, types) && #[trigger] saves_maps(
            tags,
            pending.maps,
            types,
        ) && saved == items.push(("Maps"@, Nbt::List(tags)))
}

/// A compound with waiting loot added.
pub open spec fn saves_waiting(
    after: Seq<(Seq<char>, Nbt)>,
    before: Seq<(Seq<char>, Nbt)>,
    pending: Waiting,
    types: Seq<DataComponentType>,
) -> bool {
    exists|saved: Seq<(Seq<char>, Nbt)>|
        #[trigger] saves_pending(saved, pending, types) && after == before.push(
            (pending_key(), Nbt::Compound(saved)),
        )
}

/// A compound with a container's saved form added: with a loot table its name, its
/// seed where that is not zero and the waiting loot, and otherwise the items.
pub open spec fn saves_randomizable(
    after: Seq<(Seq<char>, Nbt)>,
    before: Seq<(Seq<char>, Nbt)>,
    state: Randomizable,
    types: Seq<DataComponentType>,
) -> bool {
    let metadata = state.base.with_metadata(before);
    match state.loot_table {
        Some(key) => {
            let table = state.with_table(metadata, key);
            match state.pending {
                Some(pending) => saves_waiting(after, table, pending, types),
                None => after == table,
            }
        },
        None => saves_list(after, metadata, state.base.items, types),
    }
}

impl Randomizable {
    /// A compound with the loot table's name and its seed added.
    pub open spec fn with_table(self, saved: Seq<(Seq<char>, Nbt)>, key: Id) -> Seq<
        (Seq<char>, Nbt),
    > {
        with_entry(
            saved.push(("LootTable"@, Nbt::Text(key.text()))),
            "LootTableSeed"@,
            if self.seed != 0 {
                Some(Nbt::Long(self.seed))
            } else {
                None
            },
        )
    }

    /// Whether preparation with a token is under way.
    pub open spec fn is_running(self, token: u64) -> bool {
        self.running == Some(token)
    }

    /// The container without its preparation, where that has the token.
    pub open spec fn with_reset(self, token: u64) -> Randomizable {
        if self.is_running(token) {
            Randomizable { running: None, ..self }
        } else {
            self
        }
    }
}

/// The token after a token; zero is left out.
pub open spec fn token_after(token: u64) -> u64 {
    if token == u64::MAX {
        1
    } else {
        (token + 1) as u64
    }
}

/// The stack that takes a placeholder's place where nothing was found: the fallback
/// with the changes made to the placeholder since, other than its marker.
pub open spec fn restored(placeholder: Stack, fallback: Stack) -> Stack {
    let changes = placeholder.patch.remove(vanilla_id("map_id"@));
    Stack { patch: fallback.patch.union_prefer_right(changes), ..fallback }
}

/// Items after the placeholders of maps were replaced by their fallbacks.
pub open spec fn with_fallbacks(items: Seq<Stack>, maps: Seq<Awaited>) -> Seq<Stack>
    decreases maps.len(),
{
    if maps.len() == 0 {
        items
    } else {
        let before = with_fallbacks(items, maps.drop_last());
        let map = maps.last();
        let place = marked_place(before, map.marker);
        if 0 <= place < before.len() {
            before.update(place, restored(before[place], map.fallback))
        } else {
            before
        }
    }
}

/// Whether an identifier is among the first of listed entries.
spec fn listed_before(
    pairs: Seq<(&Identifier, &ComponentPatchEntry)>,
    count: int,
    id: Id,
) -> bool {
    exists|j: int| 0 <= j < count && #[trigger] pairs[j].0@ == id
}

impl DataComponentPatch {
    /// Takes over all entries of another patch.
    pub fn extend(&mut self, changes: &DataComponentPatch)
        ensures
            final(self)@ == old(self)@.union_prefer_right(changes@),
    {
        let pairs = changes.iter();
        let ghost before = self@;
        let mut i: usize = 0;
        while i < pairs.len()
            invariant
                i <= pairs.len(),
                before == old(self)@,
                crate::data_components::patch::lists(pairs@, changes@),
                forall|id: Id| #[trigger]
                    self@.contains_key(id) <==> before.contains_key(id) || listed_before(
                        pairs@,
                        i as int,
                        id,
                    ),
                forall|id: Id| #[trigger]
                    self@.contains_key(id) ==> self@[id] == if listed_before(
                        pairs@,
                        i as int,
                        id,
                    ) {
                        changes@[id]
                    } else {
                        before[id]
                    },
            decreases pairs.len() - i,
        {
            let ghost now = self@;
            let key = pairs[i].0.clone();
            let ghost here = key@;
            match pairs[i].1 {
                ComponentPatchEntry::SetTo(data) => {
                    self.set_component_data(key, data.copy());
                },
                ComponentPatchEntry::Removed => {
                    self.set_removed(key);
                },
            }
            proof {
                assert(self@ == now.insert(here, changes@[here]));
                assert forall|id: Id| #[trigger]
                    listed_before(pairs@, i + 1, id) == (id == here || listed_before(
                        pairs@,
                        i as int,
                        id,
                    )) by {
                    if id == here {
                        assert(pairs@[i as int].0@ == id);
                    }
                    if listed_before(pairs@, i as int, id) {
                        let j = choose|j: int| 0 <= j < i && #[trigger] pairs@[j].0@ == id;
                        assert(pairs@[j].0@ == id);
                    }
                }
                assert forall|id: Id| #[trigger] self@.contains_key(id) implies self@[id]
                    == if listed_before(pairs@, i + 1, id) {
                    changes@[id]
                } else {
                    before[id]
                } by {
                    assert(listed_before(pairs@, i + 1, id) == (id == here || listed_before(
                        pairs@,
                        i as int,
                        id,
                    )));
                    assert(id != here ==> now.contains_key(id));
                }
            }
            i = i + 1;
        }
        proof {
            assert forall|id: Id| #[trigger]
                changes@.contains_key(id) <==> listed_before(
                    pairs@,
                    pairs@.len() as int,
                    id,
                ) by {
                if changes@.contains_key(id) {
                    let j = choose|j: int| 0 <= j < pairs@.len() && #[trigger] pairs@[j].0@ == id;
                    assert(pairs@[j].0@ == id);
                }
            }
            assert(self@ =~= before.union_prefer_right(changes@));
        }
    }

    /// Takes the entry of a map's number out.
    pub fn clear_map_id(&mut self)
        ensures
            final(self)@ == old(self)@.remove(vanilla_id("map_id"@)),
    {
        let component = DataComponentType {
            key: Identifier::vanilla("map_id"),
            kind: ComponentKind::MapId,
            persistent: true,
        };
        self.clear(&component);
    }
}

/// The stack that takes a placeholder's place where nothing was found.
pub fn restore_fallback_item(placeholder: &ItemStack, map: &PendingExplorationMap) -> (stack:
    ItemStack)
    ensures
        stack@ == restored(placeholder@, map@.fallback),
{
    let mut stack = map.fallback.copy();
    let mut changes = placeholder.patch.copy();
    changes.clear_map_id();
    stack.patch.extend(&changes);
    stack
}

/// What has to be done to get a container ready.
#[derive(Debug)]
pub enum PreparationSource {
    /// Generate the loot of a table.
    LootTable { key: Identifier, seed: i64, size: usize },
    /// Look up the maps of loot that was generated before.
    Pending { maps: Vec<PendingExplorationMap> },
}

/// Work that gets a container ready.
#[derive(Debug)]
pub struct RandomizableContainerPreparation {
    pub token: u64,
    pub source: PreparationSource,
}

/// What access to a container finds.
#[derive(Debug)]
pub enum ContainerPreparation {
    /// The items can be used.
    Ready,
    /// Preparation is under way.
    Pending,
    /// Preparation starts now.
    Start(RandomizableContainerPreparation),
}

/// Whether a container's items can be used.
#[derive(Debug, Clone, Copy, PartialEq, Eq, Structural)]
pub enum ContainerReadiness {
    Ready,
    Pending,
    NeedsPreparation,
}

impl RandomizableContainer {
    /// Writes the saved form.
    pub fn save(&self, saved: &mut NbtCompound, types: &Vec<DataComponentType>)
        ensures
            saves_randomizable(final(saved)@, old(saved)@, self@, types@),
    {
        self.base.save_metadata(saved);
        if let Some(loot_table) = &self.loot_table {
            saved.insert("LootTable", NbtTag::Text(loot_table.text()));
            if self.loot_table_seed != 0 {
                saved.insert("LootTableSeed", NbtTag::Long(self.loot_table_seed));
            }
            let ghost table = saved@;
            assert(table == self@.with_table(
                self@.base.with_metadata(old(saved)@),
                loot_table@,
            ));
            if let Some(pending) = &self.pending_loot {
                let entry = RandomizableContainer::save_pending_loot(pending, types);
                let ghost waiting = entry@;
                saved.insert("steel:pending_loot", NbtTag::Compound(entry));
                assert(saves_pending(waiting, pending@, types@));
                assert(saved@ =~= table.push((pending_key(), Nbt::Compound(waiting))));
                assert(saves_waiting(saved@, table, pending@, types@));
            }
            return;
        }
        self.base.save_items(saved, types);
    }

    /// The saved form of waiting loot.
    pub fn save_pending_loot(pending: &PendingLoot, types: &Vec<DataComponentType>) -> (saved:
        NbtCompound)
        ensures
            saves_pending(saved@, pending@, types@),
    {
        broadcast use lemma_list_view;

        let mut saved = NbtCompound::new();
        BaseContainer::save_item_slice(&mut saved, &pending.items, types);
        let ghost items = saved@;
        let mut tags: Vec<NbtTag> = Vec::new();
        let mut i: usize = 0;
        while i < pending.maps.len()
            invariant
                i <= pending.maps.len(),
                tags@.len() == i,
                forall|j: int|
                    0 <= j < i ==> saves_map(
                        (#[trigger] tags@[j])@,
                        pending.maps@[j]@,
                        types@,
                    ),
            decreases pending.maps.len() - i,
        {
            let map = &pending.maps[i];
            let fallback = map.fallback.to_nbt(types);
            let ghost stack = fallback@;
            let mut entry = NbtCompound::new();
            entry.insert("Marker", NbtTag::Int(map.marker));
            entry.insert("Destination", NbtTag::Text(map.request.destination.text()));
            entry.insert("Decoration", NbtTag::Text(map.request.decoration.text()));
            entry.insert("Zoom", NbtTag::Int(map.request.zoom));
            entry.insert("SearchRadius", NbtTag::Int(map.request.search_radius));
            let skip: i8 = if map.request.skip_existing_chunks {
                1
            } else {
                0
            };
            entry.insert("SkipExistingChunks", NbtTag::Byte(skip));
            entry.insert("Fallback", NbtTag::Compound(fallback));
            assert(entry@ =~= saved_map(map@, stack));
            assert(saves_stack(stack, map@.fallback, types@));
            tags.push(NbtTag::Compound(entry));
            i = i + 1;
        }
        let ghost list = list_view(tags@);
        proof {
            assert forall|j: int| 0 <= j < list.len() implies saves_map(
                #[trigger] list[j],
                pending@.maps[j],
                types@,
            ) by {
                assert(list[j] == tags@[j]@);
                assert(pending@.maps[j] == pending.maps@[j]@);
            }
        }
        saved.insert("Maps", NbtTag::List(tags));
        assert(saves_list(items, Seq::empty(), pending@.items, types@));
        assert(saves_maps(list, pending@.maps, types@));
        saved
    }

    /// Marks this storage removed and takes the items that are ready.
    pub fn remove_and_take_ready_items(&mut self) -> (items: Vec<ItemStack>)
        ensures
            if old(self)@.loot_table is Some || old(self)@.pending is Some {
                items@.len() == 0 && final(self)@ == (Randomizable { removed: true, ..old(self)@ })
            } else {
                stacks_of(items@) == old(self)@.base.items && final(self)@ == (Randomizable {
                    base: Storage {
                        items: empty_slots(old(self)@.base.items.len()),
                        ..old(self)@.base
                    },
                    removed: true,
                    ..old(self)@
                })
            },
    {
        self.removed = true;
        if self.loot_table.is_some() || self.pending_loot.is_some() {
            Vec::new()
        } else {
            self.base.take_items()
        }
    }

    /// The custom name, or else the default one.
    pub fn display_name(&self, default: NbtTag) -> (name: NbtTag)
        ensures
            name@ == match self@.base.custom_name {
                Some(name) => name,
                None => default@,
            },
    {
        self.base.display_name(default)
    }

    pub fn has_custom_name(&self) -> (named: bool)
        ensures
            named == self@.base.custom_name is Some,
    {
        self.base.has_custom_name()
    }

    /// Whether the container is locked.
    pub fn has_lock(&self) -> (locked: bool)
        ensures
            locked == self@.base.has_lock(),
    {
        self.base.has_lock()
    }

    /// Whether a player may open the container: spectators may not unpack loot, and
    /// everyone else must satisfy the lock.
    pub fn can_open(&self, is_spectator: bool, key_fits: bool) -> (open: bool)
        ensures
            open == ((self@.loot_table is None || !is_spectator) && (is_spectator
                || self@.base.lock is None || key_fits)),
    {
        (self.loot_table.is_none() || !is_spectator) && self.base.can_open(is_spectator, key_fits)
    }

    /// Whether loot is still to be generated or waits for maps.
    pub fn has_pending_loot(&self) -> (pending: bool)
        ensures
            pending == (self@.loot_table is Some || self@.pending is Some),
    {
        self.loot_table.is_some() || self.pending_loot.is_some()
    }

    /// The loot that waits for maps.
    pub fn pending_loot(&self) -> (pending: Option<&PendingLoot>)
        ensures
            match pending {
                Some(pending) => self@.pending == Some(pending@),
                None => self@.pending is None,
            },
    {
        self.pending_loot.as_ref()
    }

    /// Whether the container's block is gone.
    pub fn is_removed(&self) -> (removed: bool)
        ensures
            removed == self@.removed,
    {
        self.removed
    }

    /// The next preparation token; never zero.
    fn next_preparation_token(&mut self) -> (token: u64)
        ensures
            token == token_after(old(self)@.next_token),
            token != 0,
            final(self)@ == (Randomizable { next_token: token, ..old(self)@ }),
    {
        self.next_token = if self.next_token == u64::MAX {
            1
        } else {
            self.next_token + 1
        };
        self.next_token
    }

    pub fn is_running(&self, token: u64) -> (running: bool)
        ensures
            running == self@.is_running(token),
    {
        match self.running_token {
            Some(running) => running == token,
            None => false,
        }
    }

    /// Whether the preparation with a token is under way and every map that it
    /// waits for has exactly one placeholder.
    pub fn pending_markers_are_valid(&self, token: u64) -> (valid: bool)
        ensures
            valid == (self@.is_running(token) && (self@.pending matches Some(pending)
                && markers_match(pending.items, pending.maps))),
    {
        if !self.is_running(token) {
            return false;
        }
        match &self.pending_loot {
            Some(pending) => check_markers(&pending.items, &pending.maps),
            None => false,
        }
    }

    /// Ends the preparation with a token.
    pub fn reset_running(&mut self, token: u64)
        ensures
            final(self)@ == old(self)@.with_reset(token),
    {
        if self.is_running(token) {
            self.running_token = None;
        }
    }

    /// Ends the preparation of a container that is gone, and takes its items with
    /// the fallbacks in the placeholders' places.
    pub fn finish_removed_as_fallback(&mut self, token: u64) -> (items: Vec<ItemStack>)
        ensures
            if !old(self)@.removed || !old(self)@.is_running(token) {
                items@.len() == 0 && final(self)@ == old(self)@.with_reset(token)
            } else {
                match old(self)@.pending {
                    Some(pending) => stacks_of(items@) == with_fallbacks(
                        pending.items,
                        pending.maps,
                    ) && final(self)@ == (Randomizable {
                        loot_table: None,
                        pending: None,
                        running: None,
                        ..old(self)@
                    }),
                    None => items@.len() == 0 && final(self)@ == (Randomizable {
                        running: None,
                        ..old(self)@
                    }),
                }
            },
    {
        if !self.removed || !self.is_running(token) {
            self.reset_running(token);
            return Vec::new();
        }
        let pending = match self.pending_loot.take() {
            Some(pending) => pending,
            None => {
                self.running_token = None;
                return Vec::new();
            },
        };
        let mut items = pending.items;
        let maps = pending.maps;
        let ghost before = stacks_of(items@);
        let ghost noted = awaited(maps@);
        let mut i: usize = 0;
        assert(noted.take(0) =~= Seq::empty());
        while i < maps.len()
            invariant
                i <= maps.len(),
                noted == awaited(maps@),
                stacks_of(items@) == with_fallbacks(before, noted.take(i as int)),
            decreases maps.len() - i,
        {
            let ghost now = stacks_of(items@);
            assert(noted.take(i + 1).drop_last() =~= noted.take(i as int));
            assert(noted.take(i + 1).last() == maps@[i as int]@);
            if let Some(slot) = find_marked(&items, maps[i].marker) {
                let stack = restore_fallback_item(&items[slot], &maps[i]);
                let ghost put = stack@;
                items.set(slot, stack);
                assert(stacks_of(items@) =~= now.update(slot as int, put));
            }
            i = i + 1;
        }
        assert(noted.take(i as int) =~= noted);
        self.loot_table = None;
        self.running_token = None;
        items
    }

    /// Begins access to the items: hands out the work to be done, where there is any
    /// and it is not under way yet.
    pub fn begin_prepare_access(&mut self) -> (preparation: ContainerPreparation)
        ensures
            match preparation {
                ContainerPreparation::Ready => old(self)@.loot_table is None && final(self)@
                    == old(self)@,
                ContainerPreparation::Pending => old(self)@.loot_table is Some && old(
                    self)@.running is Some && final(self)@ == old(self)@,
                ContainerPreparation::Start(work) => {
                    &&& old(self)@.loot_table is Some
                    &&& old(self)@.running is None
                    &&& work.token == token_after(old(self)@.next_token)
                    &&& final(self)@ == (Randomizable {
                        running: Some(work.token),
                        next_token: work.token,
                        ..old(self)@
                    })
                    &&& match (work.source, old(self)@.pending) {
                        (PreparationSource::Pending { maps }, Some(pending)) => awaited(maps@)
                            == pending.maps,
                        (PreparationSource::LootTable { key, seed, size }, None) => Some(key@)
                            == old(self)@.loot_table && seed == old(self)@.seed && size == old(
                            self)@.base.items.len(),
                        _ => false,
                    }
                },
            },
    {
        let key = match &self.loot_table {
            Some(key) => key.clone(),
            None => {
                return ContainerPreparation::Ready;
            },
        };
        if self.running_token.is_some() {
            return ContainerPreparation::Pending;
        }
        let token: u64 = self.next_preparation_token();
        self.running_token = Some(token);
        let source = match &self.pending_loot {
            Some(pending) => PreparationSource::Pending { maps: copy_maps(&pending.maps) },
            None => PreparationSource::LootTable {
                key,
                seed: self.loot_table_seed,
                size: self.base.items().len(),
            },
        };
        ContainerPreparation::Start(RandomizableContainerPreparation { token, source })
    }

    pub fn preparation_readiness(&self) -> (readiness: ContainerReadiness)
        ensures
            readiness == if self@.loot_table is None {
                ContainerReadiness::Ready
            } else if self@.running is Some {
                ContainerReadiness::Pending
            } else {
                ContainerReadiness::NeedsPreparation
            },
    {
        if self.loot_table.is_none() {
            ContainerReadiness::Ready
        } else if self.running_token.is_some() {
            ContainerReadiness::Pending
        } else {
            ContainerReadiness::NeedsPreparation
        }
    }

    pub fn items(&self) -> (items: &Vec<ItemStack>)
        ensures
            stacks_of(items@) == self@.base.items,
            items@.len() == self@.base.items.len(),
    {
        self.base.items()
    }

    /// Puts a stack into a slot, cut down to what the slot holds.
    pub fn set_item(&mut self, slot: usize, stack: ItemStack)
        ensures
            final(self)@ == (Randomizable {
                base: Storage {
                    items: if slot < old(self)@.base.items.len() {
                        old(self)@.base.items.update(
                            slot as int,
                            crate::block_entity::base_container::fitted(stack@),
                        )
                    } else {
                        old(self)@.base.items
                    },
                    ..old(self)@.base
                },
                ..old(self)@
            }),
    {
        self.base.set_item(slot, stack);
    }
}

/// The loot table and the seed that a component holds.
pub open spec fn seeded_loot(data: Option<Component>) -> Option<(Id, i64)> {
    match record_in(data, ComponentKind::ContainerLoot) {
        Some(entries) => {
            match loaded_id(entries, "loot_table"@) {
                Some(key) => Some(
                    (
                        key,
                        match lookup(entries, "seed"@) {
                            Some(Nbt::Long(seed)) => seed,
                            _ => 0,
                        },
                    ),
                ),
                None => None,
            }
        },
        None => None,
    }
}

/// The component that holds a loot table and its seed.
pub open spec fn loot_component(key: Id, seed: i64) -> Component {
    Component {
        kind: ComponentKind::ContainerLoot,
        value: Nbt::Compound(
            seq![("loot_table"@, Nbt::Text(key.text())), ("seed"@, Nbt::Long(seed))],
        ),
    }
}

/// A component that holds a loot table and its seed is read back.
pub proof fn law_loot_component_is_read_back(key: Id, seed: i64)
    requires
        key.valid(),
        key.namespace.len() > 0,
    ensures
        seeded_loot(Some(loot_component(key, seed))) == Some((key, seed)),
{
    let entries = seq![("loot_table"@, Nbt::Text(key.text())), ("seed"@, Nbt::Long(seed))];
    reveal_strlit("loot_table");
    reveal_strlit("seed");
    reveal_with_fuel(lookup, 3);
    assert("loot_table"@.len() != "seed"@.len());
    assert(entries.drop_first()[0] == entries[1]);
    law_text_is_parsed_back(key);
}

impl Randomizable {
    /// The container after the components of a placing item were applied to it.
    pub open spec fn with_item(self, stack: Stack, registry: Registry) -> Randomizable {
        let base = self.base.with_item(stack, registry);
        match seeded_loot(stack.component(vanilla_id("container_loot"@))) {
            Some((key, seed)) => Randomizable {
                base,
                loot_table: Some(key),
                seed,
                pending: None,
                running: None,
                ..self
            },
            None => Randomizable { base, ..self },
        }
    }
}

/// Components with those of a container, its loot table among them.
pub open spec fn collects_randomizable(
    after: Seq<(Id, Component)>,
    before: Seq<(Id, Component)>,
    state: Randomizable,
    types: Seq<DataComponentType>,
) -> bool {
    match state.loot_table {
        Some(key) => collects_table(after, before, state.base, key, state.seed, types),
        None => collects(after, before, state.base, types),
    }
}

/// Components with those of a base container and of a loot table.
pub open spec fn collects_table(
    after: Seq<(Id, Component)>,
    before: Seq<(Id, Component)>,
    base: Storage,
    key: Id,
    seed: i64,
    types: Seq<DataComponentType>,
) -> bool {
    exists|described: Seq<(Id, Component)>|
        #[trigger] collects(described, before, base, types) && after == with_component(
            described,
            vanilla_id("container_loot"@),
            loot_component(key, seed),
        )
}

impl RandomizableContainer {
    /// Applies the components of a placing item, which are consumed.
    pub fn apply_implicit_components(
        &mut self,
        input: &mut BlockEntityComponentInput,
        registry: &Registry,
    )
        ensures
            final(self)@ == old(self)@.with_item(old(input).stack@, *registry),
            final(input).stack == old(input).stack,
            forall|id: Id| #[trigger]
                final(input).consumes(id) <==> old(input).consumes(id) || id == vanilla_id(
                    "custom_name"@,
                ) || id == vanilla_id("lock"@) || id == vanilla_id("container"@) || id
                    == vanilla_id("container_loot"@),
    {
        self.base.apply_implicit_components(input, registry);
        if let Some(data) = input.get("container_loot") {
            if let Some(entries) = data.as_record(ComponentKind::ContainerLoot) {
                if let Some(key) = read_id(entries, "loot_table") {
                    self.loot_table = Some(key);
                    self.loot_table_seed = match entries.get_long("seed") {
                        Some(seed) => seed,
                        None => 0,
                    };
                    self.pending_loot = None;
                    self.running_token = None;
                }
            }
        }
    }

    /// Adds the components that stand for the container.
    pub fn collect_implicit_components(
        &self,
        components: &mut DataComponentMap,
        types: &Vec<DataComponentType>,
    )
        ensures
            collects_randomizable(final(components)@, old(components)@, self@, types@),
    {
        self.base.collect_implicit_components(components, types);
        if let Some(key) = &self.loot_table {
            let ghost described = components@;
            let mut entries = NbtCompound::new();
            entries.insert("loot_table", NbtTag::Text(key.text()));
            entries.insert("seed", NbtTag::Long(self.loot_table_seed));
            assert(entries@ =~= seq![
                ("loot_table"@, Nbt::Text(key@.text())),
                ("seed"@, Nbt::Long(self@.seed)),
            ]);
            components.set(
                "container_loot",
                Some(ComponentData::new(ComponentKind::ContainerLoot, NbtTag::Compound(entries))),
            );
            assert(collects(described, old(components)@, self@.base, types@));
            assert(components@ =~= with_component(
                described,
                vanilla_id("container_loot"@),
                loot_component(key@, self@.seed),
            ));
            assert(collects_table(
                components@,
                old(components)@,
                self@.base,
                key@,
                self@.seed,
                types@,
            ));
        }
    }

    /// Removes what the components stand for from saved data. Waiting loot goes too:
    /// the loot is generated anew when the item is placed.
    pub fn remove_components_from_tag(saved: &mut NbtCompound)
        ensures
            final(saved)@ == without(
                without(without(without_components(old(saved)@), "LootTable"@), "LootTableSeed"@),
                pending_key(),
            ),
    {
        BaseContainer::remove_components_from_tag(saved);
        saved.remove("LootTable");
        saved.remove("LootTableSeed");
        saved.remove("steel:pending_loot");
    }
}

/// Generated loot.
#[derive(Debug)]
pub struct EvaluatedLoot {
    pub items: Vec<ItemStack>,
    pub maps: Vec<PendingExplorationMap>,
}

impl View for EvaluatedLoot {
    type V = Waiting;

    open spec fn view(&self) -> Waiting {
        Waiting { items: stacks_of(self.items@), maps: awaited(self.maps@) }
    }
}

/// The maps that were noted.
pub open spec fn noted_maps(noted: Option<Noted>) -> Seq<Awaited> {
    match noted {
        Some(noted) => noted.maps,
        None => Seq::empty(),
    }
}

/// The loot of a table for `size` slots and the state after it was generated, with
/// exploration maps noted in `maps`. An unknown table yields nothing.
pub open spec fn evaluated<R: Random>(
    key: Id,
    size: nat,
    context: LootContext,
    state: Eval<R, PendingMapResolver>,
) -> (LootResult<Waiting>, R) {
    match find(context.registry.loot_tables@, key) {
        Some(table) => match table.required(*context.registry) {
            Ok(_) => match table.filled(empty_slots(size), context, state) {
                (Ok(items), after) => (
                    Ok(Waiting { items, maps: noted_maps(after.maps) }),
                    after.random,
                ),
                (Err(error), after) => (Err(error), after.random),
            },
            Err(error) => (Err(error), state.random),
        },
        None => (Ok(Waiting { items: empty_slots(size), maps: Seq::empty() }), state.random),
    }
}

/// A state in which no map was noted yet.
pub open spec fn fresh_state<R: Random>(random: R, filled_map: Item) -> Eval<
    R,
    PendingMapResolver,
> {
    Eval { random, maps: Some(Noted { maps: Seq::empty(), filled_map }) }
}

/// What became of generated loot.
#[derive(Debug)]
pub enum PublishedLoot {
    /// The loot was not taken in.
    Failed,
    /// The items are there; those of a container that is gone are dropped.
    Ready { dropped: Vec<ItemStack> },
    /// Exploration maps have to be found first.
    Search { maps: Vec<PendingExplorationMap> },
}

impl RandomizableContainer {
    /// Generates the loot of a table for a number of slots. Exploration maps are
    /// noted, and placeholders stand for them.
    pub fn evaluate_loot_table<R: Random>(
        context: &LootContext,
        key: &Identifier,
        size: usize,
        filled_map: Item,
        random: R,
    ) -> (result: (LootResult<EvaluatedLoot>, R))
        requires
            registry_fits(*context.registry, context.luck as int),
            random.valid(),
        ensures
            result.1.valid(),
            result.1 == evaluated(key@, size as nat, *context, fresh_state(random, filled_map)).1,
            match (
                result.0,
                evaluated(key@, size as nat, *context, fresh_state(random, filled_map)).0,
            ) {
                (Ok(loot), Ok(expected)) => loot@ == expected && loot.items@.len() == size,
                (Err(error), Err(expected)) => error == expected,
                _ => false,
            },
    {
        let registry = context.registry;
        let ghost first = fresh_state(random, filled_map);
        let mut items = empty_items(size);
        let table = match by_key(&registry.loot_tables, key) {
            Some(table) => table,
            None => {
                let loot = EvaluatedLoot { items, maps: Vec::new() };
                assert(awaited(loot.maps@) =~= Seq::empty());
                return (Ok(loot), random);
            },
        };
        match table.requirements(registry) {
            Ok(_) => {},
            Err(error) => {
                return (Err(error), random);
            },
        }
        proof {
            lemma_find(registry.loot_tables@, key@);
            let i = choose|i: int|
                0 <= i < registry.loot_tables@.len() && registry.loot_tables@[i] == *table;
            assert(table_fits(registry.loot_tables@[i], context.luck as int));
            law_checked_table_can_be_evaluated(*table, *registry, context.luck as int);
        }
        let resolver = PendingMapResolver { maps: Vec::new(), filled_map };
        assert(awaited(resolver.maps@) =~= Seq::empty());
        let mut state = LootState { random, maps: Some(resolver) };
        assert(state@ == first);
        let outcome = table.fill(&mut items, context, &mut state);
        let LootState { random, maps } = state;
        match outcome {
            Ok(()) => {
                let maps = match maps {
                    Some(resolver) => resolver.maps,
                    None => Vec::new(),
                };
                assert(maps@.len() == 0 ==> awaited(maps@) =~= Seq::empty());
                (Ok(EvaluatedLoot { items, maps }), random)
            },
            Err(error) => (Err(error), random),
        }
    }

    /// Takes in the loot that was generated for a preparation. Loot without
    /// exploration maps fills the slots at once, or is dropped where the container is
    /// gone by now; other loot waits for its maps.
    pub fn publish_evaluated(&mut self, token: u64, evaluated: LootResult<EvaluatedLoot>) -> (
        published: PublishedLoot)
        ensures
            match evaluated {
                Err(_) => published is Failed && final(self)@ == old(self)@.with_reset(token),
                Ok(loot) => {
                    if !old(self)@.is_running(token) {
                        published is Failed && final(self)@ == old(self)@
                    } else if loot.maps@.len() > 0 {
                        &&& published matches PublishedLoot::Search { maps } && awaited(maps@)
                            == loot@.maps
                        &&& final(self)@ == (Randomizable { pending: Some(loot@), ..old(self)@ })
                    } else if loot.items@.len() != old(self)@.base.items.len() {
                        published is Failed && final(self)@ == old(self)@.with_reset(token)
                    } else {
                        &&& published matches PublishedLoot::Ready { dropped } && stacks_of(
                            dropped@,
                        ) == if old(self)@.removed {
                            loot@.items
                        } else {
                            Seq::empty()
                        }
                        &&& final(self)@ == (Randomizable {
                            base: Storage {
                                items: if old(self)@.removed {
                                    empty_slots(loot.items@.len())
                                } else {
                                    loot@.items
                                },
                                ..old(self)@.base
                            },
                            loot_table: None,
                            pending: None,
                            running: None,
                            ..old(self)@
                        })
                    }
                },
            },
    {
        let loot = match evaluated {
            Ok(loot) => loot,
            Err(_) => {
                self.reset_running(token);
                return PublishedLoot::Failed;
            },
        };
        if !self.is_running(token) {
            return PublishedLoot::Failed;
        }
        if loot.maps.len() > 0 {
            let maps = copy_maps(&loot.maps);
            self.pending_loot = Some(PendingLoot { items: loot.items, maps: loot.maps });
            return PublishedLoot::Search { maps };
        }
        if self.base.replace_items(loot.items).is_err() {
            self.reset_running(token);
            return PublishedLoot::Failed;
        }
        self.loot_table = None;
        self.pending_loot = None;
        self.running_token = None;
        let dropped = if self.removed {
            self.base.take_items()
        } else {
            Vec::new()
        };
        assert(!self.removed ==> stacks_of(dropped@) =~= Seq::empty());
        PublishedLoot::Ready { dropped }
    }
}

/// Waiting maps that can be saved and read back.
pub open spec fn savable_maps(maps: Seq<Awaited>, registry: Registry) -> bool {
    &&& forall|i: int| 0 <= i < maps.len() ==> savable_map(#[trigger] maps[i], registry)
    &&& forall|i: int, j: int|
        0 <= i < j < maps.len() ==> (#[trigger] maps[i]).marker != (#[trigger] maps[j]).marker
}

/// A waiting map that can be saved and read back: it has a negative marker, and
/// its fallback is a registered item.
pub open spec fn savable_map(map: Awaited, registry: Registry) -> bool {
    &&& map.marker < 0
    &&& map.request.destination.valid() && map.request.destination.namespace.len() > 0
    &&& map.request.decoration.valid() && map.request.decoration.namespace.len() > 0
    &&& map.fallback.count > 0
    &&& map.fallback.item.valid() && map.fallback.item.namespace.len() > 0
    &&& writable(map.fallback.patch)
    &&& find(registry.items@, map.fallback.item) is Some
}

/// What is kept of waiting maps that are saved.
pub open spec fn kept_maps(maps: Seq<Awaited>, registry: Registry) -> Seq<Awaited> {
    Seq::new(maps.len(), |i: int| kept_map(maps[i], registry))
}

/// What is kept of a waiting map that is saved.
pub open spec fn kept_map(map: Awaited, registry: Registry) -> Awaited {
    Awaited {
        fallback: kept(
            map.fallback,
            find(registry.items@, map.fallback.item)->Some_0,
            registry.component_types@,
        ),
        ..map
    }
}

/// Waiting loot that can be saved and read back for a number of slots.
pub open spec fn savable_pending(pending: Waiting, size: nat, registry: Registry) -> bool {
    &&& pending.items.len() == size
    &&& savable(pending.items, registry)
    &&& pending.maps.len() > 0
    &&& savable_maps(pending.maps, registry)
    &&& markers_match(kept_slots(pending.items, size, registry), pending.maps)
}

proof fn lemma_saved_map_is_read_back(tag: Nbt, map: Awaited, registry: Registry)
    requires
        savable_map(map, registry),
        saves_map(tag, map, registry.component_types@),
    ensures
        tag is Compound,
        loaded_map(tag->Compound_0, registry) == Some(kept_map(map, registry)),
{
    let fallback = choose|fallback: Seq<(Seq<char>, Nbt)>|
        #[trigger] saves_stack(fallback, map.fallback, registry.component_types@) && tag
            == Nbt::Compound(saved_map(map, fallback));
    law_saved_stack_is_read_back(fallback, map.fallback, registry);
    law_text_is_parsed_back(map.request.destination);
    law_text_is_parsed_back(map.request.decoration);
    let e0 = saved_map(map, fallback);
    let e1 = e0.drop_first();
    let e2 = e1.drop_first();
    let e3 = e2.drop_first();
    let e4 = e3.drop_first();
    let e5 = e4.drop_first();
    let e6 = e5.drop_first();
    reveal_strlit("Marker");
    reveal_strlit("Destination");
    reveal_strlit("Decoration");
    reveal_strlit("Zoom");
    reveal_strlit("SearchRadius");
    reveal_strlit("SkipExistingChunks");
    reveal_strlit("Fallback");
    assert("Marker"@.len() == 6);
    assert("Destination"@.len() == 11);
    assert("Decoration"@.len() == 10);
    assert("Zoom"@.len() == 4);
    assert("SearchRadius"@.len() == 12);
    assert("SkipExistingChunks"@.len() == 18);
    assert("Fallback"@.len() == 8);
    assert(e1[0] == e0[1] && e2[0] == e0[2] && e3[0] == e0[3] && e4[0] == e0[4] && e5[0] == e0[5]
        && e6[0] == e0[6]);
    reveal_with_fuel(lookup, 8);
}

proof fn lemma_saved_maps_are_read_back(tags: Seq<Nbt>, maps: Seq<Awaited>, registry: Registry)
    requires
        savable_maps(maps, registry),
        saves_maps(tags, maps, registry.component_types@),
    ensures
        loaded_maps(tags, registry) == Some(kept_maps(maps, registry)),
    decreases maps.len(),
{
    if maps.len() == 0 {
        assert(kept_maps(maps, registry) =~= Seq::empty());
    } else {
        let before = maps.drop_last();
        let last = maps.len() - 1;
        assert forall|i: int| 0 <= i < before.len() implies savable_map(
            #[trigger] before[i],
            registry,
        ) by {
            assert(before[i] == maps[i]);
        }
        assert forall|i: int| 0 <= i < before.len() implies saves_map(
            #[trigger] tags.drop_last()[i],
            before[i],
            registry.component_types@,
        ) by {
            assert(tags.drop_last()[i] == tags[i]);
        }
        lemma_saved_maps_are_read_back(tags.drop_last(), before, registry);
        assert(savable_map(maps[last], registry));
        assert(saves_map(tags[last], maps[last], registry.component_types@));
        lemma_saved_map_is_read_back(tags[last], maps[last], registry);
        let kept = kept_maps(before, registry);
        if has_marker(kept, maps[last].marker) {
            let i = choose|i: int|
                0 <= i < kept.len() && (#[trigger] kept[i]).marker == maps[last].marker;
            assert(maps[i].marker == maps[last].marker);
        }
        assert(kept_maps(maps, registry) =~= kept.push(kept_map(maps[last], registry)));
    }
}

proof fn lemma_saved_pending_is_read_back(
    saved: Seq<(Seq<char>, Nbt)>,
    pending: Waiting,
    size: nat,
    registry: Registry,
)
    requires
        savable_pending(pending, size, registry),
        saves_pending(saved, pending, registry.component_types@),
    ensures
        loaded_pending(saved, size, registry) == Some(
            Waiting {
                items: kept_slots(pending.items, size, registry),
                maps: kept_maps(pending.maps, registry),
            },
        ),
{
    broadcast use law_lookup_after_insert;

    let types = registry.component_types@;
    let (items, tags) = choose|items: Seq<(Seq<char>, Nbt)>, tags: Seq<Nbt>|
        #[trigger] saves_list(items, Seq::empty(), pending.items, types) && #[trigger] saves_maps(
            tags,
            pending.maps,
            types,
        ) && saved == items.push(("Maps"@, Nbt::List(tags)));
    let storage = Storage { items: pending.items, custom_name: None, lock: None };
    law_saved_container_is_read_back(storage, items, registry);
    lemma_saved_maps_are_read_back(tags, pending.maps, registry);
    reveal_strlit("Items");
    reveal_strlit("Maps");
    assert("Items"@.len() != "Maps"@.len());
    law_lookup_after_insert(items, ("Maps"@, Nbt::List(tags)), "Items"@);
    law_lookup_after_insert(items, ("Maps"@, Nbt::List(tags)), "Maps"@);
    let kept = kept_maps(pending.maps, registry);
    assert(markers_match(kept_slots(pending.items, size, registry), kept)) by {
        assert forall|i: int| 0 <= i < kept.len() implies marked_count(
            kept_slots(pending.items, size, registry),
            (#[trigger] kept[i]).marker,
        ) == 1 by {
            assert(kept[i].marker == pending.maps[i].marker);
        }
    }
}

impl Randomizable {
    /// The container can be saved and read back.
    pub open spec fn savable(self, registry: Registry) -> bool {
        &&& self.base.custom_name matches Some(name) ==> ComponentKind::Text.fits(name)
        &&& match self.loot_table {
            Some(key) => {
                &&& key.valid()
                &&& key.namespace.len() > 0
                &&& self.pending matches Some(pending) ==> savable_pending(
                    pending,
                    self.base.items.len(),
                    registry,
                )
            },
            None => self.pending is None && savable(self.base.items, registry),
        }
    }

    /// What is kept of a container that is saved and read into another one. A
    /// preparation that was under way is forgotten, so that it begins anew.
    pub open spec fn kept(self, into: Randomizable, registry: Registry) -> Randomizable {
        let size = self.base.items.len();
        Randomizable {
            base: Storage {
                items: if self.loot_table is Some {
                    empty_slots(size)
                } else {
                    kept_slots(self.base.items, size, registry)
                },
                ..self.base
            },
            loot_table: self.loot_table,
            seed: if self.loot_table is Some {
                self.seed
            } else {
                0
            },
            pending: match self.pending {
                Some(pending) => Some(
                    Waiting {
                        items: kept_slots(pending.items, size, registry),
                        maps: kept_maps(pending.maps, registry),
                    },
                ),
                None => None,
            },
            running: None,
            next_token: into.next_token,
            removed: false,
        }
    }
}

/// A container that is saved is read back, by one with as many slots: its name, its
/// lock, and its items or else its loot table, its seed and its waiting loot.
pub proof fn law_saved_loot_container_is_read_back(
    state: Randomizable,
    into: Randomizable,
    saved: Seq<(Seq<char>, Nbt)>,
    registry: Registry,
)
    requires
        into.base.items.len() == state.base.items.len(),
        state.savable(registry),
        saves_randomizable(saved, Seq::empty(), state, registry.component_types@),
    ensures
        into.loaded(saved, registry) == state.kept(into, registry),
{
    broadcast use law_lookup_after_insert;

    reveal_strlit("CustomName");
    reveal_strlit("lock");
    reveal_strlit("Items");
    reveal_strlit("LootTable");
    reveal_strlit("LootTableSeed");
    reveal_strlit("steel:pending_loot");
    assert("CustomName"@.len() == 10);
    assert("lock"@.len() == 4);
    assert("Items"@.len() == 5);
    assert("LootTable"@.len() == 9);
    assert("LootTableSeed"@.len() == 13);
    assert("steel:pending_loot"@.len() == 18);
    let types = registry.component_types@;
    let size = state.base.items.len();
    let metadata = state.base.with_metadata(Seq::empty());
    assert(lookup(metadata, "LootTable"@) is None);
    assert(lookup(metadata, "LootTableSeed"@) is None);
    assert(lookup(metadata, pending_key()) is None);
    match state.loot_table {
        Some(key) => {
            law_text_is_parsed_back(key);
            let named = metadata.push(("LootTable"@, Nbt::Text(key.text())));
            let table = state.with_table(metadata, key);
            assert(lookup(named, "LootTable"@) == Some(Nbt::Text(key.text())));
            assert(lookup(table, "LootTable"@) == Some(Nbt::Text(key.text())));
            assert(lookup(table, pending_key()) is None);
            assert(loaded_name(table) == state.base.custom_name);
            assert(loaded_lock(table) == state.base.lock);
            match state.pending {
                Some(pending) => {
                    let loot = choose|loot: Seq<(Seq<char>, Nbt)>|
                        #[trigger] saves_pending(loot, pending, types) && saved == table.push(
                            (pending_key(), Nbt::Compound(loot)),
                        );
                    lemma_saved_pending_is_read_back(loot, pending, size, registry);
                    assert(lookup(saved, pending_key()) == Some(Nbt::Compound(loot)));
                    assert(lookup(saved, "LootTable"@) == Some(Nbt::Text(key.text())));
                    assert(lookup(saved, "LootTableSeed"@) == lookup(table, "LootTableSeed"@));
                    assert(lookup(saved, "CustomName"@) == lookup(table, "CustomName"@));
                    assert(lookup(saved, "lock"@) == lookup(table, "lock"@));
                },
                None => {},
            }
        },
        None => {
            law_saved_container_is_read_back(state.base, saved, registry);
            let tags = choose|tags: Seq<Nbt>| saved == metadata.push(("Items"@, Nbt::List(tags)));
            assert(lookup(saved, "LootTable"@) is None);
            assert(lookup(saved, "LootTableSeed"@) is None);
        },
    }
    assert(into.loaded(saved, registry) =~= state.kept(into, registry));
}

/// A token is never zero, and differs from the one before; a preparation is ended only
/// by its own token.
pub proof fn law_tokens_end_their_own_preparation(container: Randomizable, token: u64, other: u64)
    requires
        other != token,
    ensures
        token_after(token) != 0,
        token_after(token) != token,
        token < u64::MAX ==> token_after(token) == token + 1,
        container.running == Some(token) ==> container.with_reset(token).running is None,
        container.running == Some(token) ==> container.with_reset(other) == container,
        container.with_reset(token).base == container.base,
        container.with_reset(token).pending == container.pending,
        container.with_reset(token).loot_table == container.loot_table,
{
}

proof fn lemma_first_marked(items: Seq<Stack>, marker: i32)
    ensures
        ({
            let place = marked_place(items, marker);
            &&& 0 <= place <= items.len()
            &&& place < items.len() ==> marked(items[place], marker)
            &&& forall|i: int| 0 <= i < place ==> !marked(#[trigger] items[i], marker)
        }),
    decreases items.len(),
{
    if items.len() > 0 && !marked(items[0], marker) {
        let rest = items.drop_first();
        lemma_first_marked(rest, marker);
        let place = marked_place(rest, marker);
        assert forall|i: int| 0 <= i < place + 1 implies !marked(#[trigger] items[i], marker) by {
            if i > 0 {
                assert(rest[i - 1] == items[i]);
            }
        }
    }
}

/// Fallbacks take the places of placeholders alone: no place is added or lost, and what
/// is no placeholder of a map stays.
pub proof fn law_fallbacks_keep_other_items(items: Seq<Stack>, maps: Seq<Awaited>, at: int)
    requires
        0 <= at < items.len(),
        forall|j: int| 0 <= j < maps.len() ==> !marked(items[at], (#[trigger] maps[j]).marker),
    ensures
        with_fallbacks(items, maps).len() == items.len(),
        with_fallbacks(items, maps)[at] == items[at],
    decreases maps.len(),
{
    if maps.len() > 0 {
        let earlier = maps.drop_last();
        assert forall|j: int| 0 <= j < earlier.len() implies !marked(
            items[at],
            (#[trigger] earlier[j]).marker,
        ) by {
            assert(earlier[j] == maps[j]);
        }
        law_fallbacks_keep_other_items(items, earlier, at);
        let before = with_fallbacks(items, earlier);
        lemma_first_marked(before, maps.last().marker);
        assert(!marked(items[at], maps[maps.len() - 1].marker));
    }
}

/// A noted exploration map gets a placeholder of one item that bears its marker, and what
/// was to become a map is kept for the case that nothing is found.
pub proof fn law_noted_map_gets_a_placeholder(state: Noted, request: Lookup, item: Stack)
    requires
        state.maps.len() <= i32::MAX,
    ensures
        ({
            let (map, after) = PendingMapResolver::resolved(state, request, item);
            &&& after.maps.len() == state.maps.len() + 1
            &&& after.maps.last().request == request
            &&& after.maps.last().fallback == item
            &&& after.maps.drop_last() == state.maps
            &&& map matches Ok(Some(made)) && made.count == 1 && made.item
                == state.filled_map.key@ && marked(made, after.maps.last().marker)
        }),
{
    let after = PendingMapResolver::resolved(state, request, item).1;
    assert(after.maps.drop_last() =~= state.maps);
}

/// The loot table is saved under its name, and its seed beside it where it is not zero.
pub proof fn law_loot_table_is_saved_under_its_name(state: Randomizable, key: Id)
    ensures
        ({
            let saved = state.with_table(Seq::empty(), key);
            &&& lookup(saved, "LootTable"@) == Some(Nbt::Text(key.text()))
            &&& state.seed != 0 ==> lookup(saved, "LootTableSeed"@) == Some(Nbt::Long(state.seed))
            &&& state.seed == 0 ==> lookup(saved, "LootTableSeed"@) is None
        }),
{
    broadcast use law_lookup_after_insert;

    reveal_strlit("LootTable");
    reveal_strlit("LootTableSeed");
    assert("LootTable"@.len() == 9);
    assert("LootTableSeed"@.len() == 13);
    let none = Seq::<(Seq<char>, Nbt)>::empty();
    assert(lookup(none, "LootTable"@) is None);
    assert(lookup(none, "LootTableSeed"@) is None);
    let named = none.push(("LootTable"@, Nbt::Text(key.text())));
    assert(lookup(named, "LootTableSeed"@) is None);
}

} // verus!
