//! The steps in which the maps that a player carries are brought up to date.
use vstd::prelude::*;

use crate::hashing::fx_hasher;
use crate::ident::{Id, Identifier};
use crate::map::packet::{icons_of, CMapItemData, Icon, MapDecoration, MapUpdate};
use crate::map::store::{MapDataState, Maps};
use crate::map::synchronize::{
    candidates_of, collect_ids, with_change, HolderCandidate, MapTrackingState, Tracking,
};
use crate::map::terrain::{
    area_around, area_chunks, drawn, fits_center, fits_offset, law_merged_bounds_cover_both,
    sampling_chunks, update_map, ChunkPos, MapDirtyBounds, TerrainSample,
};
use crate::map::tracking::{
    carried_maps, consistent, lemma_changed_holder_is_found, snapshots_of, unnamed, with_next_step, Carried, CarriedMap, Followed, Holder,
    HolderSnapshot, MapPoint, PlayerSession, Snapshot,
};
use crate::map::{MapItemSavedData, SavedMap, MAP_COLOR_COUNT};

verus! {

/// The maps of one domain and who carries them, as a mathematical value.
#[verifier::ext_equal]
pub ghost struct MapStore {
    pub maps: Maps,
    pub tracking: Tracking,
}

/// The maps of one domain and who carries them.
#[derive(Debug)]
pub struct MapDataStore {
    pub state: MapDataState,
    pub tracking: MapTrackingState,
}

impl View for MapDataStore {
    type V = MapStore;

    open spec fn view(&self) -> MapStore {
        MapStore { maps: self.state@, tracking: self.tracking@ }
    }
}

/// A map that a player holds in a hand, and how far from its center they are: the
/// difference of the coordinates, rounded down.
#[derive(Debug, Clone, Copy, PartialEq, Eq, Structural)]
pub struct HeldMap {
    pub id: i32,
    pub offset_x: i32,
    pub offset_z: i32,
}

/// The distances leave room for the pixels around the holder.
pub open spec fn fits(held: Seq<HeldMap>) -> bool {
    forall|i: int|
        0 <= i < held.len() ==> fits_offset((#[trigger] held[i]).offset_x) && fits_offset(
            held[i].offset_z,
        )
}

/// The centers of the maps leave room for the blocks around them, and no pixels are
/// missing.
pub open spec fn drawable(maps: Maps) -> bool {
    forall|id: i32| #[trigger]
        maps.maps.contains_key(id) ==> fits_center(maps.maps[id]) && maps.maps[id].colors.len()
            == MAP_COLOR_COUNT
}

/// The numbers of the carried maps that exist, slot by slot.
pub open spec fn valid_slots(maps: Map<i32, SavedMap>, carried: Seq<Carried>) -> Seq<i32>
    decreases carried.len(),
{
    if carried.len() == 0 {
        Seq::empty()
    } else {
        let before = valid_slots(maps, carried.drop_last());
        if maps.contains_key(carried.last().id) {
            before.push(carried.last().id)
        } else {
            before
        }
    }
}

/// Numbers without those that occurred before.
pub open spec fn first_ones(ids: Seq<i32>) -> Seq<i32>
    decreases ids.len(),
{
    if ids.len() == 0 {
        Seq::empty()
    } else {
        let before = first_ones(ids.drop_last());
        if before.contains(ids.last()) {
            before
        } else {
            before.push(ids.last())
        }
    }
}

/// The chunks that a held map is drawn from.
pub open spec fn held_chunks(map: SavedMap, world: Id, has_ceiling: bool, held: HeldMap) -> Seq<ChunkPos> {
    if map.locked || map.world != world {
        Seq::empty()
    } else {
        area_chunks(area_around(map, has_ceiling, held.offset_x, held.offset_z), map)
    }
}

/// The place of the first request for a map, or the number of requests.
pub open spec fn request_place<T>(requests: Seq<(i32, T)>, id: i32) -> int
    decreases requests.len(),
{
    if requests.len() == 0 || requests[0].0 == id {
        0
    } else {
        1 + request_place(requests.drop_first(), id)
    }
}

/// The chunks that held maps are drawn from, by the maps' numbers; none for maps that
/// do not exist or are not drawn.
pub open spec fn requested_chunks(
    maps: Map<i32, SavedMap>,
    world: Id,
    has_ceiling: bool,
    held: Seq<HeldMap>,
) -> Seq<(i32, Seq<ChunkPos>)>
    decreases held.len(),
{
    if held.len() == 0 {
        Seq::empty()
    } else {
        let before = requested_chunks(maps, world, has_ceiling, held.drop_last());
        let last = held.last();
        let chunks = held_chunks(maps[last.id], world, has_ceiling, last);
        if request_place(before, last.id) < before.len() || !maps.contains_key(last.id)
            || chunks.len() == 0 {
            before
        } else {
            before.push((last.id, chunks))
        }
    }
}

/// Requests of a list.
pub open spec fn requests_of(requests: Seq<(i32, Vec<ChunkPos>)>) -> Seq<(i32, Seq<ChunkPos>)> {
    Seq::new(requests.len(), |i: int| (requests[i].0, requests[i].1@))
}

fn find_request(requests: &Vec<(i32, Vec<ChunkPos>)>, id: i32) -> (place: Option<usize>)
    ensures
        match place {
            Some(place) => place < requests@.len() && place == request_place(
                requests_of(requests@),
                id,
            ),
            None => request_place(requests_of(requests@), id) == requests@.len(),
        },
{
    let ghost all = requests_of(requests@);
    let mut i: usize = 0;
    assert(all.skip(0) =~= all);
    while i < requests.len()
        invariant
            i <= requests@.len(),
            all == requests_of(requests@),
            request_place(all, id) == i + request_place(all.skip(i as int), id),
        decreases requests@.len() - i,
    {
        assert(all.skip(i as int).drop_first() =~= all.skip(i + 1));
        assert(all.skip(i as int)[0].0 == requests@[i as int].0);
        if requests[i].0 == id {
            return Some(i);
        }
        i = i + 1;
    }
    None
}

impl MapDataStore {
    /// The numbers of the carried maps that exist, slot by slot.
    fn valid_map_slots(&self, carried: &Vec<CarriedMap>) -> (slots: Vec<i32>)
        ensures
            slots@ == valid_slots(self@.maps.maps, carried_maps(carried@)),
    {
        let ghost all = carried_maps(carried@);
        let mut slots: Vec<i32> = Vec::new();
        let mut i: usize = 0;
        assert(all.take(0) =~= Seq::empty());
        while i < carried.len()
            invariant
                i <= carried@.len(),
                all == carried_maps(carried@),
                slots@ == valid_slots(self@.maps.maps, all.take(i as int)),
            decreases carried@.len() - i,
        {
            assert(all.take(i + 1).drop_last() =~= all.take(i as int));
            assert(all.take(i + 1).last() == carried@[i as int]@);
            if self.state.get(carried[i].id).is_some() {
                slots.push(carried[i].id);
            }
            i = i + 1;
        }
        assert(all.take(i as int) =~= all);
        slots
    }

    /// The chunks that held maps are drawn from, by the maps' numbers.
    pub fn held_map_sampling_chunks(
        &self,
        world: &Identifier,
        has_ceiling: bool,
        held: &Vec<HeldMap>,
    ) -> (requests: Vec<(i32, Vec<ChunkPos>)>)
        requires
            fits(held@),
            drawable(self@.maps),
        ensures
            requests_of(requests@) == requested_chunks(
                self@.maps.maps,
                world@,
                has_ceiling,
                held@,
            ),
    {
        let mut requests: Vec<(i32, Vec<ChunkPos>)> = Vec::new();
        let mut i: usize = 0;
        assert(held@.take(0) =~= Seq::empty());
        assert(requests_of(requests@) =~= Seq::empty());
        while i < held.len()
            invariant
                i <= held@.len(),
                fits(held@),
                drawable(self@.maps),
                requests_of(requests@) == requested_chunks(
                    self@.maps.maps,
                    world@,
                    has_ceiling,
                    held@.take(i as int),
                ),
            decreases held@.len() - i,
        {
            assert(held@.take(i + 1).drop_last() =~= held@.take(i as int));
            let last = held[i];
            assert(held@.take(i + 1).last() == last);
            let ghost before = requests_of(requests@);
            if find_request(&requests, last.id).is_none() {
                if let Some(map) = self.state.get(last.id) {
                    assert(self@.maps.maps.contains_key(last.id));
                    let chunks = sampling_chunks(
                        world,
                        has_ceiling,
                        last.offset_x,
                        last.offset_z,
                        map,
                    );
                    if chunks.len() > 0 {
                        let ghost added = (last.id, chunks@);
                        requests.push((last.id, chunks));
                        assert(requests_of(requests@) =~= before.push(added));
                    }
                }
            }
            i = i + 1;
        }
        assert(held@.take(i as int) =~= held@);
        requests
    }
}

/// Numbers without those that occurred before.
fn distinct(ids: &Vec<i32>) -> (order: Vec<i32>)
    ensures
        order@ == first_ones(ids@),
        order@.no_duplicates(),
{
    let _hasher = fx_hasher();
    let mut seen: rustc_hash::FxHashSet<i32> = rustc_hash::FxHashSet::default();
    let mut order: Vec<i32> = Vec::new();
    let mut i: usize = 0;
    assert(ids@.take(0) =~= Seq::empty());
    while i < ids.len()
        invariant
            i <= ids@.len(),
            crate::hashing::sound(_hasher),
            order@ == first_ones(ids@.take(i as int)),
            order@.no_duplicates(),
            forall|id: i32| seen@.contains(id) <==> #[trigger] order@.contains(id),
        decreases ids@.len() - i,
    {
        assert(ids@.take(i + 1).drop_last() =~= ids@.take(i as int));
        let id: i32 = ids[i];
        assert(ids@.take(i + 1).last() == id);
        let ghost before = order@;
        if seen.insert(id) {
            assert(!before.contains(id));
            order.push(id);
            assert forall|other: i32| seen@.contains(other) <==> #[trigger] order@.contains(
                other,
            ) by {
                if before.contains(other) {
                    let j = choose|j: int| 0 <= j < before.len() && before[j] == other;
                    assert(order@[j] == other);
                }
                assert(order@.last() == id);
                if order@.contains(other) && other != id {
                    let j = choose|j: int| 0 <= j < order@.len() && order@[j] == other;
                    assert(before[j] == other);
                }
            }
        } else {
            assert(before.contains(id));
        }
        i = i + 1;
    }
    assert(ids@.take(i as int) =~= ids@);
    order
}

/// Chunks that a player's map has to be drawn from.
#[derive(Debug)]
pub struct TerrainRequest {
    pub id: i32,
    pub chunks: Vec<ChunkPos>,
    /// The chunks have to be requested anew.
    pub new: bool,
}

/// Chunk requests as mathematical values: the map, the chunks, and whether these have
/// to be requested anew.
pub open spec fn terrain_requests(requests: Seq<TerrainRequest>) -> Seq<(i32, Seq<ChunkPos>, bool)> {
    Seq::new(requests.len(), |i: int| (requests[i].id, requests[i].chunks@, requests[i].new))
}

/// What has to be known before a player's maps can be brought up to date.
#[derive(Debug)]
pub struct PlannedSynchronization {
    /// The numbers of the carried maps, slot by slot.
    pub valid_slots: Vec<i32>,
    /// The numbers of the carried maps, once each.
    pub order: Vec<i32>,
    /// The players who may carry each of them.
    pub candidates: Vec<Vec<HolderCandidate>>,
    /// The chunks that the held maps have to be drawn from.
    pub requests: Vec<TerrainRequest>,
}

/// The numbers of maps with requests.
pub open spec fn requested_ids(requests: Seq<(i32, Seq<ChunkPos>)>) -> Seq<i32> {
    Seq::new(requests.len(), |i: int| requests[i].0)
}

/// After the chunks of held maps were noted, and the requests for them.
pub open spec fn noted_requests(
    tracking: Tracking,
    uuid: u128,
    held: Seq<HeldMap>,
    chunks: Seq<(i32, Seq<ChunkPos>)>,
) -> (Tracking, Seq<(i32, Seq<ChunkPos>, bool)>)
    decreases held.len(),
{
    if held.len() == 0 {
        (tracking, Seq::empty())
    } else {
        let (before, requests) = noted_requests(tracking, uuid, held.drop_last(), chunks);
        let id = held.last().id;
        let place = request_place(chunks, id);
        if 0 <= place < chunks.len() {
            let wanted = chunks[place].1;
            (
                before.with_terrain(id, uuid, Some(wanted)),
                match before.holder(id, uuid) {
                    Some(holder) => requests.push((id, wanted, holder.terrain != Some(wanted))),
                    None => requests,
                },
            )
        } else {
            (before, requests)
        }
    }
}

impl MapTrackingState {
    /// Notes the chunks of held maps, and lists the requests for them.
    fn note_requests(
        &mut self,
        uuid: u128,
        held: &Vec<HeldMap>,
        chunks: &Vec<(i32, Vec<ChunkPos>)>,
    ) -> (requests: Vec<TerrainRequest>)
        ensures
            (final(self)@, terrain_requests(requests@)) == noted_requests(
                old(self)@,
                uuid,
                held@,
                requests_of(chunks@),
            ),
            old(self)@.sound() ==> final(self)@.sound(),
    {
        let ghost before = self@;
        let ghost wanted = requests_of(chunks@);
        let mut requests: Vec<TerrainRequest> = Vec::new();
        let mut i: usize = 0;
        assert(held@.take(0) =~= Seq::empty());
        assert(terrain_requests(requests@) =~= Seq::empty());
        while i < held.len()
            invariant
                i <= held@.len(),
                wanted == requests_of(chunks@),
                (self@, terrain_requests(requests@)) == noted_requests(
                    before,
                    uuid,
                    held@.take(i as int),
                    wanted,
                ),
                before.sound() ==> self@.sound(),
            decreases held@.len() - i,
        {
            assert(held@.take(i + 1).drop_last() =~= held@.take(i as int));
            assert(held@.take(i + 1).last() == held@[i as int]);
            let id: i32 = held[i].id;
            let ghost noted = terrain_requests(requests@);
            if let Some(place) = find_request(chunks, id) {
                let needed = &chunks[place].1;
                assert(wanted[place as int].1 == needed@);
                if let Some(new) = self.request_terrain(id, uuid, needed) {
                    let copied = needed.clone();
                    assert(copied@ =~= needed@);
                    requests.push(TerrainRequest { id, chunks: copied, new });
                    assert(terrain_requests(requests@) =~= noted.push((id, needed@, new)));
                }
            }
            i = i + 1;
        }
        assert(held@.take(i as int) =~= held@);
        requests
    }
}

/// The chunks that held maps are drawn from; none in a world of another domain.
pub open spec fn planned_chunks(
    maps: Maps,
    world: Id,
    has_ceiling: bool,
    in_domain: bool,
    held: Seq<HeldMap>,
) -> Seq<(i32, Seq<ChunkPos>)> {
    if in_domain {
        requested_chunks(maps.maps, world, has_ceiling, held)
    } else {
        Seq::empty()
    }
}

/// Who carries which maps, after it was seen what a player carries.
pub open spec fn seen_carried(store: MapStore, player: PlayerSession, carried: Seq<Carried>) -> Tracking {
    store.tracking.with_carried(
        player,
        carried,
        first_ones(valid_slots(store.maps.maps, carried)),
    )
}

/// Who carries which maps, after the chunk requests of a player for other maps than
/// the given ones were dropped.
pub open spec fn seen_held(tracking: Tracking, uuid: u128, chunks: Seq<(i32, Seq<ChunkPos>)>) -> Tracking {
    tracking.without_requests(
        tracking.maps.dom().difference(requested_ids(chunks).to_set()),
        uuid,
    )
}

impl MapDataStore {
    /// No maps, and nobody who carries one.
    pub fn new() -> (store: Self)
        ensures
            store@.maps == (Maps { last: -1i32, maps: Map::empty(), revision: 0, saved: 0 }),
            store@.tracking == (Tracking { maps: Map::empty(), players: Map::empty() }),
            store@.maps.well_formed(),
            store@.tracking.sound(),
    {
        MapDataStore { state: MapDataState::new(), tracking: MapTrackingState::new() }
    }

    /// Begins to bring a player's maps up to date: notes what they carry, and tells
    /// what has to be known to go on.
    pub fn begin_synchronize_player(
        &mut self,
        player: &PlayerSession,
        carried: &Vec<CarriedMap>,
        held: &Vec<HeldMap>,
        world: &Identifier,
        has_ceiling: bool,
        in_domain: bool,
    ) -> (plan: PlannedSynchronization)
        requires
            fits(held@),
            drawable(old(self)@.maps),
        ensures
            final(self)@.maps == old(self)@.maps,
            plan.valid_slots@ == valid_slots(old(self)@.maps.maps, carried_maps(carried@)),
            plan.order@ == first_ones(plan.valid_slots@),
            plan.candidates@.len() == plan.order@.len(),
            forall|i: int|
                0 <= i < plan.order@.len() ==> (#[trigger] plan.candidates@[i])@ == candidates_of(
                    seen_carried(old(self)@, *player, carried_maps(carried@)),
                    plan.order@[i],
                ),
            ({
                let chunks = planned_chunks(
                    old(self)@.maps,
                    world@,
                    has_ceiling,
                    in_domain,
                    held@,
                );
                (final(self)@.tracking, terrain_requests(plan.requests@)) == noted_requests(
                    seen_held(
                        seen_carried(old(self)@, *player, carried_maps(carried@)),
                        player.uuid,
                        chunks,
                    ),
                    player.uuid,
                    held@,
                    chunks,
                )
            }),
            old(self)@.tracking.sound() ==> final(self)@.tracking.sound(),
    {
        let ghost before = self@;
        let chunks = if in_domain {
            self.held_map_sampling_chunks(world, has_ceiling, held)
        } else {
            Vec::new()
        };
        let ghost wanted = planned_chunks(before.maps, world@, has_ceiling, in_domain, held@);
        assert(requests_of(chunks@) =~= wanted);
        let slots = self.valid_map_slots(carried);
        let order = distinct(&slots);
        self.tracking.update_player(player, carried, &order);
        let ghost seen = self@.tracking;
        let mut candidates: Vec<Vec<HolderCandidate>> = Vec::new();
        let mut i: usize = 0;
        while i < order.len()
            invariant
                i <= order@.len(),
                candidates@.len() == i,
                self.tracking@ == seen,
                forall|j: int|
                    0 <= j < i ==> (#[trigger] candidates@[j])@ == candidates_of(seen, order@[j]),
            decreases order@.len() - i,
        {
            candidates.push(self.tracking.holder_candidates(order[i]));
            i = i + 1;
        }
        let mut ids: Vec<i32> = Vec::new();
        let mut i: usize = 0;
        while i < chunks.len()
            invariant
                i <= chunks@.len(),
                ids@.len() == i,
                forall|j: int| 0 <= j < i ==> #[trigger] ids@[j] == chunks@[j].0,
            decreases chunks@.len() - i,
        {
            ids.push(chunks[i].0);
            i = i + 1;
        }
        assert(ids@ =~= requested_ids(wanted));
        let requested = collect_ids(&ids);
        self.tracking.retain_terrain_requests(player.uuid, &requested);
        let requests = self.tracking.note_requests(player.uuid, held, &chunks);
        PlannedSynchronization { valid_slots: slots, order, candidates, requests }
    }
}

/// After the steps in which maps are drawn were advanced, and the steps.
pub open spec fn advanced(tracking: Tracking, uuid: u128, ready: Seq<(i32, bool)>) -> (
    Tracking,
    Seq<(i32, i32)>,
)
    decreases ready.len(),
{
    if ready.len() == 0 {
        (tracking, Seq::empty())
    } else {
        let (before, steps) = advanced(tracking, uuid, ready.drop_last());
        let (id, is_ready) = ready.last();
        match before.holder(id, uuid) {
            Some(holder) => if is_ready && holder.terrain is Some {
                (
                    before.with_step(id, uuid),
                    steps.push((id, holder.step.wrapping_add(1))),
                )
            } else {
                (before, steps)
            },
            None => (before, steps),
        }
    }
}

impl MapTrackingState {
    /// Advances the steps in which a player's maps are drawn, where their chunks are
    /// ready.
    pub fn advance_steps(&mut self, uuid: u128, ready: &Vec<(i32, bool)>) -> (steps: Vec<(i32, i32)>)
        ensures
            (final(self)@, steps@) == advanced(old(self)@, uuid, ready@),
            old(self)@.sound() ==> final(self)@.sound(),
    {
        let ghost before = self@;
        let mut steps: Vec<(i32, i32)> = Vec::new();
        let mut i: usize = 0;
        assert(ready@.take(0) =~= Seq::empty());
        while i < ready.len()
            invariant
                i <= ready@.len(),
                (self@, steps@) == advanced(before, uuid, ready@.take(i as int)),
                before.sound() ==> self@.sound(),
            decreases ready@.len() - i,
        {
            assert(ready@.take(i + 1).drop_last() =~= ready@.take(i as int));
            assert(ready@.take(i + 1).last() == ready@[i as int]);
            let (id, is_ready) = ready[i];
            if let Some(step) = self.advance_step(id, uuid, is_ready) {
                steps.push((id, step));
            }
            i = i + 1;
        }
        assert(ready@.take(i as int) =~= ready@);
        steps
    }
}

/// A held map and the step in which it is drawn.
#[derive(Debug, Clone, Copy, PartialEq, Eq, Structural)]
pub struct HeldStep {
    pub held: HeldMap,
    pub step: i32,
}

/// The distances leave room for the pixels around the holder.
pub open spec fn steps_fit(steps: Seq<HeldStep>) -> bool {
    forall|i: int|
        0 <= i < steps.len() ==> fits_offset((#[trigger] steps[i]).held.offset_x) && fits_offset(
            steps[i].held.offset_z,
        )
}

/// The changed rectangles of maps, with one more.
pub open spec fn with_bounds(
    changed: Seq<(i32, MapDirtyBounds)>,
    id: i32,
    bounds: MapDirtyBounds,
) -> Seq<(i32, MapDirtyBounds)> {
    let place = request_place(changed, id);
    if 0 <= place < changed.len() {
        changed.update(place, (id, changed[place].1.merged(bounds)))
    } else {
        changed.push((id, bounds))
    }
}

/// Maps after held ones were drawn, and the rectangles that have changed.
pub open spec fn drawn_maps<F: Fn(i32, i32, i32) -> Option<TerrainSample>>(
    maps: Map<i32, SavedMap>,
    world: Id,
    has_ceiling: bool,
    steps: Seq<HeldStep>,
    sample: F,
) -> (Map<i32, SavedMap>, Seq<(i32, MapDirtyBounds)>)
    decreases steps.len(),
{
    if steps.len() == 0 {
        (maps, Seq::empty())
    } else {
        let (before, changed) = drawn_maps(maps, world, has_ceiling, steps.drop_last(), sample);
        let HeldStep { held, step } = steps.last();
        let map = before[held.id];
        if !before.contains_key(held.id) || map.locked || map.world != world {
            (before, changed)
        } else {
            let drawing = drawn(
                sample,
                area_around(map, has_ceiling, held.offset_x, held.offset_z),
                map,
                step as int,
            );
            (
                before.insert(held.id, SavedMap { colors: drawing.colors, ..map }),
                match drawing.dirty {
                    Some(bounds) => with_bounds(changed, held.id, bounds),
                    None => changed,
                },
            )
        }
    }
}

/// After the colors of maps have changed.
pub open spec fn with_all_dirty(tracking: Tracking, changed: Seq<(i32, MapDirtyBounds)>) -> Tracking
    decreases changed.len(),
{
    if changed.len() == 0 {
        tracking
    } else {
        with_all_dirty(tracking, changed.drop_last()).with_dirty(changed.last().0, changed.last().1)
    }
}

fn add_bounds(changed: &mut Vec<(i32, MapDirtyBounds)>, id: i32, bounds: MapDirtyBounds)
    requires
        bounds.on_map(),
        forall|i: int| 0 <= i < old(changed)@.len() ==> (#[trigger] old(changed)@[i]).1.on_map(),
    ensures
        final(changed)@ == with_bounds(old(changed)@, id, bounds),
        forall|i: int| 0 <= i < final(changed)@.len() ==> (#[trigger] final(changed)@[i]).1.on_map(),
{
    let ghost before = changed@;
    let mut i: usize = 0;
    assert(before.skip(0) =~= before);
    while i < changed.len()
        invariant
            i <= changed@.len(),
            changed@ == before,
            before == old(changed)@,
            request_place(before, id) == i + request_place(before.skip(i as int), id),
            bounds.on_map(),
            forall|i: int| 0 <= i < before.len() ==> (#[trigger] before[i]).1.on_map(),
        decreases changed@.len() - i,
    {
        assert(before.skip(i as int).drop_first() =~= before.skip(i + 1));
        let (existing, mut merged) = changed[i];
        if existing == id {
            proof {
                law_merged_bounds_cover_both(merged, bounds);
            }
            merged.merge(bounds);
            changed.set(i, (id, merged));
            return;
        }
        i = i + 1;
    }
    changed.push((id, bounds));
}

impl MapDataStore {
    /// Draws held maps, and notes for everyone who carries them what has changed.
    /// `sample` samples the area that begins at a position and has that many blocks
    /// along each side.
    #[verifier::rlimit(40)]
    pub fn update_held_maps<F: Fn(i32, i32, i32) -> Option<TerrainSample>>(
        &mut self,
        world: &Identifier,
        has_ceiling: bool,
        steps: &Vec<HeldStep>,
        sample: &F,
    )
        requires
            steps_fit(steps@),
            drawable(old(self)@.maps),
            crate::map::terrain::consistent(*sample),
        ensures
            drawable(final(self)@.maps),
            ({
                let (maps, changed) = drawn_maps(
                    old(self)@.maps.maps,
                    world@,
                    has_ceiling,
                    steps@,
                    *sample,
                );
                &&& final(self)@.maps == (Maps {
                    maps,
                    revision: if changed.len() == 0 {
                        old(self)@.maps.revision
                    } else {
                        old(self)@.maps.revision.wrapping_add(1)
                    },
                    ..old(self)@.maps
                })
                &&& final(self)@.tracking == with_all_dirty(old(self)@.tracking, changed)
            }),
            old(self)@.tracking.sound() ==> final(self)@.tracking.sound(),
    {
        let ghost before = self@;
        let mut changed: Vec<(i32, MapDirtyBounds)> = Vec::new();
        let mut i: usize = 0;
        assert(steps@.take(0) =~= Seq::empty());
        while i < steps.len()
            invariant
                i <= steps@.len(),
                steps_fit(steps@),
                crate::map::terrain::consistent(*sample),
                drawable(self@.maps),
                self@ == (MapStore {
                    maps: Maps { maps: self@.maps.maps, ..before.maps },
                    ..before
                }),
                (self@.maps.maps, changed@) == drawn_maps(
                    before.maps.maps,
                    world@,
                    has_ceiling,
                    steps@.take(i as int),
                    *sample,
                ),
                forall|j: int| 0 <= j < changed@.len() ==> (#[trigger] changed@[j]).1.on_map(),
            decreases steps@.len() - i,
        {
            assert(steps@.take(i + 1).drop_last() =~= steps@.take(i as int));
            let HeldStep { held, step } = steps[i];
            assert(steps@.take(i + 1).last() == steps@[i as int]);
            let ghost now = self@.maps.maps;
            let dirty = self.state.draw(held, step, world, has_ceiling, sample);
            if let Some(bounds) = dirty {
                add_bounds(&mut changed, held.id, bounds);
            }
            i = i + 1;
        }
        assert(steps@.take(i as int) =~= steps@);
        if changed.len() > 0 {
            self.state.revision = self.state.revision.wrapping_add(1);
        }
        let ghost tracking = self@.tracking;
        let mut i: usize = 0;
        assert(changed@.take(0) =~= Seq::empty());
        let ghost state = self@.maps;
        while i < changed.len()
            invariant
                i <= changed@.len(),
                self@ == (MapStore {
                    maps: state,
                    tracking: with_all_dirty(tracking, changed@.take(i as int)),
                }),
                tracking.sound() ==> self@.tracking.sound(),
                forall|j: int| 0 <= j < changed@.len() ==> (#[trigger] changed@[j]).1.on_map(),
            decreases changed@.len() - i,
        {
            assert(changed@.take(i + 1).drop_last() =~= changed@.take(i as int));
            assert(changed@.take(i + 1).last() == changed@[i as int]);
            let (id, bounds) = changed[i];
            self.tracking.mark_colors_dirty(id, bounds);
            i = i + 1;
        }
        assert(changed@.take(i as int) =~= changed@);
    }
}

impl MapDataState {
    /// Draws one held map, where it exists, and tells which rectangle has changed.
    fn draw<F: Fn(i32, i32, i32) -> Option<TerrainSample>>(
        &mut self,
        held: HeldMap,
        step: i32,
        world: &Identifier,
        has_ceiling: bool,
        sample: &F,
    ) -> (dirty: Option<MapDirtyBounds>)
        requires
            fits_offset(held.offset_x),
            fits_offset(held.offset_z),
            drawable(old(self)@),
            crate::map::terrain::consistent(*sample),
        ensures
            drawable(final(self)@),
            dirty matches Some(bounds) ==> bounds.on_map(),
            ({
                let map = old(self)@.maps[held.id];
                if !old(self)@.maps.contains_key(held.id) || map.locked || map.world != world@ {
                    dirty is None && final(self)@ == old(self)@
                } else {
                    let drawing = drawn(
                        *sample,
                        area_around(map, has_ceiling, held.offset_x, held.offset_z),
                        map,
                        step as int,
                    );
                    dirty == drawing.dirty && final(self)@ == (Maps {
                        maps: old(self)@.maps.insert(
                            held.id,
                            SavedMap { colors: drawing.colors, ..map },
                        ),
                        ..old(self)@
                    })
                }
            }),
    {
        let ghost before = self@;
        match self.maps.remove(&held.id) {
            Some(mut map) => {
                assert(before.maps.contains_key(held.id) && before.maps[held.id] == map@);
                let dirty = update_map(
                    world,
                    has_ceiling,
                    held.offset_x,
                    held.offset_z,
                    step,
                    &mut map,
                    sample,
                );
                let ghost put = map@;
                self.maps.insert(held.id, map);
                assert(self@.maps =~= before.maps.insert(held.id, put));
                assert(before.maps[held.id] == put ==> self@.maps =~= before.maps);
                dirty
            },
            None => {
                assert(self@.maps =~= before.maps);
                None
            },
        }
    }
}

/// After players have ceased to carry maps.
pub open spec fn without_stale(tracking: Tracking, stale: Seq<(i32, u128)>) -> Tracking
    decreases stale.len(),
{
    if stale.len() == 0 {
        tracking
    } else {
        without_stale(tracking, stale.drop_last()).without_holder(stale.last().0, stale.last().1)
    }
}

/// What is known of the players who carry each of several maps.
pub open spec fn all_snapshots(snapshots: Seq<Vec<HolderSnapshot>>) -> Seq<Seq<Snapshot>> {
    Seq::new(snapshots.len(), |i: int| snapshots_of(snapshots[i]@))
}

/// After the icons of maps were brought up to date, and the icons of each of them.
pub open spec fn refreshed<F: Fn(i32, i32, i8, u64, u64, u32) -> MapPoint>(
    tracking: Tracking,
    maps: Map<i32, SavedMap>,
    recipient: u128,
    order: Seq<i32>,
    snapshots: Seq<Seq<Snapshot>>,
    place: F,
) -> (Tracking, Seq<(i32, Seq<Icon>)>)
    decreases order.len(),
{
    if order.len() == 0 {
        (tracking, Seq::empty())
    } else {
        let (before, icons) = refreshed(
            tracking,
            maps,
            recipient,
            order.drop_last(),
            snapshots,
            place,
        );
        let id = order.last();
        if !maps.contains_key(id) || !before.maps.contains_key(id) {
            (before, icons)
        } else {
            let shown = before.maps[id].shown(
                recipient,
                maps[id],
                snapshots[order.len() - 1],
                place,
            );
            (
                Tracking {
                    maps: before.maps.insert(id, Followed { icons: shown, ..before.maps[id] }),
                    ..before
                },
                icons.push((id, unnamed(shown))),
            )
        }
    }
}

/// A holder after a check for updates.
pub open spec fn with_check(icons: Seq<Icon>) -> spec_fn(Holder) -> Holder {
    |holder: Holder| holder.after_check(icons)
}

/// After a check for updates in each slot, and the updates.
pub open spec fn checked(
    tracking: Tracking,
    maps: Map<i32, SavedMap>,
    recipient: u128,
    slots: Seq<i32>,
    icons: Seq<(i32, Seq<Icon>)>,
) -> (Tracking, Seq<MapUpdate>)
    decreases slots.len(),
{
    if slots.len() == 0 {
        (tracking, Seq::empty())
    } else {
        let (before, updates) = checked(tracking, maps, recipient, slots.drop_last(), icons);
        let id = slots.last();
        let place = request_place(icons, id);
        if !maps.contains_key(id) || !(0 <= place < icons.len()) {
            (before, updates)
        } else {
            let shown = icons[place].1;
            (
                Tracking {
                    maps: with_change(
                        before.maps,
                        id,
                        |map: Followed| map.with_holder(recipient, with_check(shown)),
                    ),
                    ..before
                },
                match before.holder(id, recipient) {
                    Some(holder) => match holder.update(id, maps[id], shown) {
                        Some(update) => updates.push(update),
                        None => updates,
                    },
                    None => updates,
                },
            )
        }
    }
}

/// Updates of a list.
pub open spec fn updates_of(packets: Seq<CMapItemData>) -> Seq<MapUpdate> {
    Seq::new(packets.len(), |i: int| packets[i]@)
}

/// Icons of maps of a list.
pub open spec fn shown_icons(icons: Seq<(i32, Vec<MapDecoration>)>) -> Seq<(i32, Seq<Icon>)> {
    Seq::new(icons.len(), |i: int| (icons[i].0, icons_of(icons[i].1@)))
}

fn find_icons(icons: &Vec<(i32, Vec<MapDecoration>)>, id: i32) -> (place: Option<usize>)
    ensures
        match place {
            Some(place) => place < icons@.len() && place == request_place(shown_icons(icons@), id),
            None => request_place(shown_icons(icons@), id) == icons@.len(),
        },
{
    let ghost all = shown_icons(icons@);
    let mut i: usize = 0;
    assert(all.skip(0) =~= all);
    while i < icons.len()
        invariant
            i <= icons@.len(),
            all == shown_icons(icons@),
            request_place(all, id) == i + request_place(all.skip(i as int), id),
        decreases icons@.len() - i,
    {
        assert(all.skip(i as int).drop_first() =~= all.skip(i + 1));
        assert(all.skip(i as int)[0].0 == icons@[i as int].0);
        if icons[i].0 == id {
            return Some(i);
        }
        i = i + 1;
    }
    None
}

proof fn lemma_checking_keeps_soundness(map: Followed, uuid: u128, icons: Seq<Icon>)
    requires
        map.sound(),
    ensures
        map.with_holder(uuid, with_check(icons)).sound(),
{
    let after = map.with_holder(uuid, with_check(icons));
    assert forall|i: int| 0 <= i < after.holders.len() implies (
    #[trigger] after.holders[i]).sound() by {
        assert(map.holders[i].sound());
    }
}

impl MapTrackingState {
    /// Brings the icons of one map up to date, and lists them as a recipient sees them.
    fn refresh<F: Fn(i32, i32, i8, u64, u64, u32) -> MapPoint>(
        &mut self,
        id: i32,
        map: &MapItemSavedData,
        recipient: u128,
        snapshots: &Vec<HolderSnapshot>,
        place: &F,
    ) -> (icons: Option<Vec<MapDecoration>>)
        requires
            consistent(*place),
        ensures
            if old(self)@.maps.contains_key(id) {
                let shown = old(self)@.maps[id].shown(
                    recipient,
                    map@,
                    snapshots_of(snapshots@),
                    *place,
                );
                &&& icons matches Some(icons) && icons_of(icons@) == unnamed(shown)
                &&& final(self)@ == (Tracking {
                    maps: old(self)@.maps.insert(
                        id,
                        Followed { icons: shown, ..old(self)@.maps[id] },
                    ),
                    ..old(self)@
                })
            } else {
                icons is None && final(self)@ == old(self)@
            },
            old(self)@.sound() ==> final(self)@.sound(),
    {
        let _hasher = fx_hasher();
        let ghost before = self@;
        match self.maps.remove(&id) {
            Some(mut followed) => {
                assert(before.maps[id] == followed@);
                let icons = followed.decorations_for(recipient, map, snapshots, place);
                let ghost put = followed@;
                self.maps.insert(id, followed);
                assert(self@.maps =~= before.maps.insert(id, put));
                assert(before.sound() ==> put.sound()) by {
                    if before.sound() {
                        assert(before.maps[id].sound());
                        assert(put.holders == before.maps[id].holders);
                    }
                }
                Some(icons)
            },
            None => {
                assert(self@.maps =~= before.maps);
                None
            },
        }
    }

    /// Checks for an update of one map.
    fn check(
        &mut self,
        id: i32,
        map: &MapItemSavedData,
        recipient: u128,
        icons: &Vec<MapDecoration>,
    ) -> (packet: Option<CMapItemData>)
        requires
            old(self)@.sound(),
            map@.colors.len() == MAP_COLOR_COUNT,
        ensures
            final(self)@.sound(),
            final(self)@ == (Tracking {
                maps: with_change(
                    old(self)@.maps,
                    id,
                    |map: Followed| map.with_holder(recipient, with_check(icons_of(icons@))),
                ),
                ..old(self)@
            }),
            match packet {
                Some(packet) => old(self)@.holder(id, recipient) matches Some(holder)
                    && holder.update(id, map@, icons_of(icons@)) == Some(packet@),
                None => old(self)@.holder(id, recipient) matches Some(holder) ==> holder.update(
                    id,
                    map@,
                    icons_of(icons@),
                ) is None,
            },
    {
        let _hasher = fx_hasher();
        let ghost before = self@;
        let ghost shown = icons_of(icons@);
        let ghost change = |map: Followed| map.with_holder(recipient, with_check(shown));
        match self.maps.remove(&id) {
            Some(mut followed) => {
                assert(before.maps.contains_key(id) && before.maps[id] == followed@);
                proof {
                    lemma_checking_keeps_soundness(before.maps[id], recipient, shown);
                }
                let packet = followed.next_update_packet(recipient, id, map, icons);
                let ghost put = followed@;
                assert((|holder: Holder| holder.after_check(shown)) =~= with_check(shown));
                assert(put == change(before.maps[id]));
                self.maps.insert(id, followed);
                assert(self@.maps =~= with_change(before.maps, id, change));
                packet
            },
            None => {
                assert(self@.maps =~= with_change(before.maps, id, change));
                None
            },
        }
    }
}

impl MapDataStore {
    /// Ends to bring a player's maps up to date, and yields the packets for them.
    /// `snapshots` holds what is known of the players who carry each of the maps in
    /// `order`, `stale` those who carry them no more; `place` tells where a position
    /// lies on a map with a given center and scale.
    #[verifier::rlimit(40)]
    pub fn finish_synchronize_player<F: Fn(i32, i32, i8, u64, u64, u32) -> MapPoint>(
        &mut self,
        recipient: u128,
        slots: &Vec<i32>,
        order: &Vec<i32>,
        snapshots: &Vec<Vec<HolderSnapshot>>,
        stale: &Vec<(i32, u128)>,
        place: &F,
    ) -> (packets: Vec<CMapItemData>)
        requires
            drawable(old(self)@.maps),
            old(self)@.tracking.sound(),
            snapshots@.len() == order@.len(),
            consistent(*place),
        ensures
            final(self)@.maps == old(self)@.maps,
            final(self)@.tracking.sound(),
            ({
                let (shown, icons) = refreshed(
                    without_stale(old(self)@.tracking, stale@),
                    old(self)@.maps.maps,
                    recipient,
                    order@,
                    all_snapshots(snapshots@),
                    *place,
                );
                (final(self)@.tracking, updates_of(packets@)) == checked(
                    shown,
                    old(self)@.maps.maps,
                    recipient,
                    slots@,
                    icons,
                )
            }),
    {
        let ghost before = self@;
        let ghost maps = before.maps.maps;
        let ghost known = all_snapshots(snapshots@);
        let mut i: usize = 0;
        assert(stale@.take(0) =~= Seq::empty());
        while i < stale.len()
            invariant
                i <= stale@.len(),
                self@ == (MapStore {
                    tracking: without_stale(before.tracking, stale@.take(i as int)),
                    ..before
                }),
                self@.tracking.sound(),
            decreases stale@.len() - i,
        {
            assert(stale@.take(i + 1).drop_last() =~= stale@.take(i as int));
            assert(stale@.take(i + 1).last() == stale@[i as int]);
            let (id, uuid) = stale[i];
            self.tracking.remove_holder(id, uuid);
            i = i + 1;
        }
        assert(stale@.take(i as int) =~= stale@);
        let ghost left = self@.tracking;
        let mut icons: Vec<(i32, Vec<MapDecoration>)> = Vec::new();
        let mut i: usize = 0;
        assert(order@.take(0) =~= Seq::empty());
        assert(shown_icons(icons@) =~= Seq::empty());
        while i < order.len()
            invariant
                i <= order@.len() == snapshots@.len(),
                consistent(*place),
                maps == before.maps.maps,
                known == all_snapshots(snapshots@),
                self@ == (MapStore { tracking: self@.tracking, ..before }),
                (self@.tracking, shown_icons(icons@)) == refreshed(
                    left,
                    maps,
                    recipient,
                    order@.take(i as int),
                    known,
                    *place,
                ),
                self@.tracking.sound(),
            decreases order@.len() - i,
        {
            assert(order@.take(i + 1).drop_last() =~= order@.take(i as int));
            assert(order@.take(i + 1).last() == order@[i as int]);
            assert(known[i as int] == snapshots_of(snapshots@[i as int]@));
            let id: i32 = order[i];
            let ghost noted = shown_icons(icons@);
            if let Some(map) = self.state.get(id) {
                if let Some(shown) = self.tracking.refresh(
                    id,
                    map,
                    recipient,
                    &snapshots[i],
                    place,
                ) {
                    let ghost added = (id, icons_of(shown@));
                    icons.push((id, shown));
                    assert(shown_icons(icons@) =~= noted.push(added));
                }
            }
            i = i + 1;
        }
        assert(order@.take(i as int) =~= order@);
        let ghost shown = self@.tracking;
        let ghost listed = shown_icons(icons@);
        let mut packets: Vec<CMapItemData> = Vec::new();
        let mut i: usize = 0;
        assert(slots@.take(0) =~= Seq::empty());
        assert(updates_of(packets@) =~= Seq::empty());
        while i < slots.len()
            invariant
                i <= slots@.len(),
                maps == before.maps.maps,
                drawable(before.maps),
                listed == shown_icons(icons@),
                self@ == (MapStore { tracking: self@.tracking, ..before }),
                (self@.tracking, updates_of(packets@)) == checked(
                    shown,
                    maps,
                    recipient,
                    slots@.take(i as int),
                    listed,
                ),
                self@.tracking.sound(),
            decreases slots@.len() - i,
        {
            assert(slots@.take(i + 1).drop_last() =~= slots@.take(i as int));
            assert(slots@.take(i + 1).last() == slots@[i as int]);
            let id: i32 = slots[i];
            let ghost sent = updates_of(packets@);
            if let Some(map) = self.state.get(id) {
                if let Some(place) = find_icons(&icons, id) {
                    assert(listed[place as int].1 == icons_of(icons@[place as int].1@));
                    if let Some(packet) = self.tracking.check(id, map, recipient, &icons[place].1) {
                        let ghost added = packet@;
                        packets.push(packet);
                        assert(updates_of(packets@) =~= sent.push(added));
                    }
                }
            }
            i = i + 1;
        }
        assert(slots@.take(i as int) =~= slots@);
        packets
    }
}

/// A map that is carried in several slots is met once, where it is met first: every
/// number of a list stands in the shorter one, once, in the order of its first slot.
pub proof fn law_every_map_is_met_once(ids: Seq<i32>)
    ensures
        ({
            let once = first_ones(ids);
            &&& once.len() <= ids.len()
            &&& forall|id: i32| #[trigger] once.contains(id) <==> ids.contains(id)
            &&& forall|i: int, j: int|
                0 <= i < j < once.len() ==> #[trigger] once[i] != #[trigger] once[j]
            &&& ids.len() > 0 ==> once[0] == ids[0]
        }),
    decreases ids.len(),
{
    if ids.len() > 0 {
        let earlier = ids.drop_last();
        let before = first_ones(earlier);
        let once = first_ones(ids);
        law_every_map_is_met_once(earlier);
        assert forall|id: i32| #[trigger] once.contains(id) <==> ids.contains(id) by {
            assert(before.contains(id) <==> earlier.contains(id));
            if ids.contains(id) {
                let k = choose|k: int| 0 <= k < ids.len() && ids[k] == id;
                if k < earlier.len() {
                    assert(earlier[k] == id);
                    let i = choose|i: int| 0 <= i < before.len() && before[i] == id;
                    assert(once[i] == id);
                } else if !before.contains(id) {
                    assert(once[before.len() as int] == id);
                }
            }
            if once.contains(id) {
                let k = choose|k: int| 0 <= k < once.len() && once[k] == id;
                if k < before.len() {
                    assert(before[k] == id);
                    let i = choose|i: int| 0 <= i < earlier.len() && earlier[i] == id;
                    assert(ids[i] == id);
                } else {
                    assert(ids[ids.len() - 1] == id);
                }
            }
        }
        if earlier.len() == 0 {
            assert(before =~= Seq::<i32>::empty());
            assert(!before.contains(ids.last()));
        }
    }
}

/// The slots that count are those whose map exists: their numbers stand in the order of
/// the slots, one for each.
pub proof fn law_existing_maps_are_kept_slot_by_slot(
    maps: Map<i32, SavedMap>,
    first: Seq<Carried>,
    second: Seq<Carried>,
)
    ensures
        valid_slots(maps, first + second) == valid_slots(maps, first) + valid_slots(maps, second),
        second.len() == 1 && maps.contains_key(second[0].id) ==> valid_slots(maps, second) == seq![
            second[0].id,
        ],
        second.len() == 1 && !maps.contains_key(second[0].id) ==> valid_slots(maps, second)
            == Seq::<i32>::empty(),
    decreases second.len(),
{
    if second.len() == 0 {
        assert(first + second =~= first);
        assert(valid_slots(maps, first) + valid_slots(maps, second) =~= valid_slots(maps, first));
    } else {
        assert((first + second).drop_last() =~= first + second.drop_last());
        assert((first + second).last() == second.last());
        law_existing_maps_are_kept_slot_by_slot(maps, first, second.drop_last());
        assert(valid_slots(maps, first + second) =~= valid_slots(maps, first) + valid_slots(
            maps,
            second,
        ));
        if second.len() == 1 {
            assert(valid_slots(maps, second.drop_last()) =~= Seq::<i32>::empty());
            assert(valid_slots(maps, second) =~= if maps.contains_key(second[0].id) {
                seq![second[0].id]
            } else {
                Seq::<i32>::empty()
            });
        }
    }
}

/// Whether a map is one that can be drawn in a world: it exists, is not locked and shows
/// that world.
pub open spec fn can_be_drawn(maps: Map<i32, SavedMap>, world: Id, id: i32) -> bool {
    maps.contains_key(id) && !maps[id].locked && maps[id].world == world
}

proof fn lemma_request_place<T>(requests: Seq<(i32, T)>, id: i32)
    ensures
        ({
            let place = request_place(requests, id);
            &&& 0 <= place <= requests.len()
            &&& place < requests.len() ==> requests[place].0 == id
            &&& forall|i: int| 0 <= i < place ==> (#[trigger] requests[i]).0 != id
        }),
    decreases requests.len(),
{
    if requests.len() > 0 && requests[0].0 != id {
        let rest = requests.drop_first();
        lemma_request_place(rest, id);
        let place = request_place(rest, id);
        assert forall|i: int| 0 <= i < place + 1 implies (#[trigger] requests[i]).0 != id by {
            if i > 0 {
                assert(rest[i - 1] == requests[i]);
            }
        }
    }
}

/// Chunks are requested only for held maps that can be drawn, once for each of them, and
/// none are left out that has any.
pub proof fn law_requests_are_for_drawable_maps(
    maps: Map<i32, SavedMap>,
    world: Id,
    has_ceiling: bool,
    held: Seq<HeldMap>,
)
    ensures
        ({
            let requests = requested_chunks(maps, world, has_ceiling, held);
            &&& forall|i: int|
                0 <= i < requests.len() ==> can_be_drawn(maps, world, (#[trigger] requests[i]).0)
                    && requests[i].1.len() > 0 && exists|k: int|
                    0 <= k < held.len() && (#[trigger] held[k]).id == requests[i].0
            &&& forall|i: int, j: int|
                0 <= i < j < requests.len() ==> (#[trigger] requests[i]).0 != (
                #[trigger] requests[j]).0
            &&& forall|k: int|
                0 <= k < held.len() && can_be_drawn(maps, world, (#[trigger] held[k]).id)
                    && area_chunks(
                    area_around(
                        maps[held[k].id],
                        has_ceiling,
                        held[k].offset_x,
                        held[k].offset_z,
                    ),
                    maps[held[k].id],
                ).len() > 0 ==> request_place(requests, held[k].id) < requests.len()
        }),
    decreases held.len(),
{
    if held.len() > 0 {
        let earlier = held.drop_last();
        let last = held.last();
        let before = requested_chunks(maps, world, has_ceiling, earlier);
        let requests = requested_chunks(maps, world, has_ceiling, held);
        law_requests_are_for_drawable_maps(maps, world, has_ceiling, earlier);
        lemma_request_place(before, last.id);
        assert(held[held.len() - 1] == last);
        assert forall|i: int| 0 <= i < requests.len() implies can_be_drawn(
            maps,
            world,
            (#[trigger] requests[i]).0,
        ) && requests[i].1.len() > 0 && exists|k: int|
            0 <= k < held.len() && (#[trigger] held[k]).id == requests[i].0 by {
            if i < before.len() {
                assert(requests[i] == before[i]);
                let k = choose|k: int|
                    0 <= k < earlier.len() && (#[trigger] earlier[k]).id == before[i].0;
                assert(held[k].id == requests[i].0);
            } else {
                assert(held[held.len() - 1].id == requests[i].0);
            }
        }
        assert forall|i: int, j: int| 0 <= i < j < requests.len() implies (
        #[trigger] requests[i]).0 != (#[trigger] requests[j]).0 by {
            assert(requests[i] == before[i]);
            if j < before.len() {
                assert(requests[j] == before[j]);
            }
        }
        assert forall|k: int|
            0 <= k < held.len() && can_be_drawn(maps, world, (#[trigger] held[k]).id)
                && area_chunks(
                area_around(maps[held[k].id], has_ceiling, held[k].offset_x, held[k].offset_z),
                maps[held[k].id],
            ).len() > 0 implies request_place(requests, held[k].id) < requests.len() by {
            lemma_request_place(requests, held[k].id);
            if k < earlier.len() {
                assert(earlier[k] == held[k]);
                lemma_request_place(before, held[k].id);
                let there = request_place(before, held[k].id);
                assert(requests[there] == before[there]);
            } else if request_place(before, last.id) < before.len() {
                let there = request_place(before, last.id);
                assert(requests[there] == before[there]);
            } else {
                assert(requests[before.len() as int].0 == last.id);
            }
        }
    }
}

/// Drawing held maps changes nothing but the colors of maps that can be drawn; a locked
/// map, a map of another world and one that is not held stay as they are.
pub proof fn law_drawing_keeps_other_maps<F: Fn(i32, i32, i32) -> Option<TerrainSample>>(
    maps: Map<i32, SavedMap>,
    world: Id,
    has_ceiling: bool,
    steps: Seq<HeldStep>,
    sample: F,
    id: i32,
)
    requires
        maps.contains_key(id),
    ensures
        ({
            let after = drawn_maps(maps, world, has_ceiling, steps, sample).0;
            &&& after.contains_key(id)
            &&& after[id] == (SavedMap { colors: after[id].colors, ..maps[id] })
            &&& maps[id].locked || maps[id].world != world || (forall|i: int|
                0 <= i < steps.len() ==> (#[trigger] steps[i]).held.id != id) ==> after[id]
                == maps[id]
        }),
    decreases steps.len(),
{
    if steps.len() > 0 {
        let earlier = steps.drop_last();
        law_drawing_keeps_other_maps(maps, world, has_ceiling, earlier, sample, id);
        if forall|i: int| 0 <= i < steps.len() ==> (#[trigger] steps[i]).held.id != id {
            assert forall|i: int| 0 <= i < earlier.len() implies (
            #[trigger] earlier[i]).held.id != id by {
                assert(earlier[i] == steps[i]);
            }
            assert(steps[steps.len() - 1].held.id != id);
        }
    }
}

/// A map whose chunks are ready is drawn in the step after the last one, which is noted;
/// one whose chunks are not ready waits, and its step stays.
pub proof fn law_ready_map_takes_one_step(tracking: Tracking, uuid: u128, id: i32)
    requires
        tracking.holder(id, uuid) matches Some(holder) && holder.terrain is Some && holder.step
            < i32::MAX,
    ensures
        ({
            let holder = tracking.holder(id, uuid)->Some_0;
            let ready = advanced(tracking, uuid, seq![(id, true)]);
            let waiting = advanced(tracking, uuid, seq![(id, false)]);
            &&& ready.1 == seq![(id, (holder.step + 1) as i32)]
            &&& ready.0.holder(id, uuid) matches Some(after) && after.step == holder.step + 1
                && after.terrain == holder.terrain && after.dirty == holder.dirty
            &&& waiting.1.len() == 0
            &&& waiting.0 == tracking
        }),
{
    let yes = seq![(id, true)];
    let no = seq![(id, false)];
    assert(yes.drop_last() =~= Seq::<(i32, bool)>::empty());
    assert(no.drop_last() =~= Seq::<(i32, bool)>::empty());
    assert(advanced(tracking, uuid, yes.drop_last()) == (tracking, Seq::<(i32, i32)>::empty()));
    assert(advanced(tracking, uuid, no.drop_last()) == (tracking, Seq::<(i32, i32)>::empty()));
    let holder = tracking.holder(id, uuid)->Some_0;
    assert(advanced(tracking, uuid, yes).1 =~= seq![(id, (holder.step + 1) as i32)]);
    lemma_changed_holder_is_found(tracking.maps[id], uuid, with_next_step());
}

} // verus!
