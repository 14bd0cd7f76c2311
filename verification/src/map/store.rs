//! The maps of one domain, and the allocation of their numbers.
use std::collections::BTreeMap;

use vstd::prelude::*;
use vstd::std_specs::iter::IteratorSpec;

use crate::map::{
    center_of, new_maps, MapItemSavedData, NewMap, NewMapData, SavedMap, MAP_COLOR_COUNT,
};

verus! {

/// The ways in which map data is refused.
#[derive(Debug, Clone, Copy, PartialEq, Eq, Structural)]
pub enum MapDataError {
    /// A fresh map's color buffer has the wrong length.
    ColorLength { found: usize },
    /// There are more maps in one batch than map numbers.
    BatchTooLarge,
    /// There are no map numbers left.
    IdsExhausted,
    /// A map number that should be free is not.
    AlreadyAllocated { id: i32 },
    /// The stored last map number is below the one before the first.
    InvalidLastId { id: i32 },
    /// A stored map has a negative number.
    NegativeId { id: i32 },
    /// A stored map's color buffer has the wrong length.
    StoredColorLength { id: i32, found: usize },
    /// Two stored maps have the same number.
    DuplicateId { id: i32 },
    /// A stored map's number is above the last one.
    LastIdTooLow,
}

/// The maps of one domain as a mathematical value.
#[verifier::ext_equal]
pub ghost struct Maps {
    pub last: i32,
    pub maps: Map<i32, SavedMap>,
    pub revision: u64,
    pub saved: u64,
}

/// The maps of one domain, by their numbers.
#[derive(Debug)]
pub struct MapDataState {
    pub last_map_id: i32,
    pub maps: BTreeMap<i32, MapItemSavedData>,
    /// Counts the changes.
    pub revision: u64,
    /// The revision that was saved last.
    pub saved_revision: u64,
}

impl View for MapDataState {
    type V = Maps;

    open spec fn view(&self) -> Maps {
        Maps {
            last: self.last_map_id,
            maps: saved_maps(self.maps@),
            revision: self.revision,
            saved: self.saved_revision,
        }
    }
}

/// The maps as mathematical values.
pub open spec fn saved_maps(maps: Map<i32, MapItemSavedData>) -> Map<i32, SavedMap> {
    Map::new(|id: i32| maps.contains_key(id), |id: i32| maps[id]@)
}

impl Maps {
    /// Map numbers run from zero to the last one, and every map has all its pixels.
    pub open spec fn well_formed(self) -> bool {
        &&& self.last >= -1
        &&& forall|id: i32| #[trigger]
            self.maps.contains_key(id) ==> 0 <= id <= self.last && self.maps[id].colors.len()
                == MAP_COLOR_COUNT
    }
}

/// The map that is made from what a fresh map needs.
pub open spec fn fresh_map(map: NewMap) -> SavedMap {
    SavedMap {
        center_x: center_of(map.origin.x, map.scale),
        center_z: center_of(map.origin.z, map.scale),
        world: map.world,
        dimension_type: map.dimension_type,
        tracking_position: map.tracking_position,
        unlimited_tracking: map.unlimited_tracking,
        scale: map.scale,
        colors: map.colors,
        locked: false,
    }
}

/// Maps with fresh ones added under the numbers from `first` on.
pub open spec fn with_fresh(maps: Map<i32, SavedMap>, first: int, fresh: Seq<NewMap>) -> Map<
    i32,
    SavedMap,
>
    decreases fresh.len(),
{
    if fresh.len() == 0 {
        maps
    } else {
        with_fresh(maps, first, fresh.drop_last()).insert(
            (first + fresh.len() - 1) as i32,
            fresh_map(fresh.last()),
        )
    }
}

/// The length of the first color buffer that has the wrong one.
pub open spec fn wrong_length(maps: Seq<NewMap>) -> Option<nat>
    decreases maps.len(),
{
    if maps.len() == 0 {
        None
    } else if maps[0].colors.len() != MAP_COLOR_COUNT {
        Some(maps[0].colors.len())
    } else {
        wrong_length(maps.drop_first())
    }
}

/// The first of `count` numbers from `first` on that is taken.
pub open spec fn first_taken(maps: Map<i32, SavedMap>, first: int, count: nat) -> Option<i32>
    decreases count,
{
    if count == 0 {
        None
    } else if maps.contains_key(first as i32) {
        Some(first as i32)
    } else {
        first_taken(maps, first + 1, (count - 1) as nat)
    }
}

impl Maps {
    /// Why a batch of maps cannot be allocated, if it cannot.
    pub open spec fn refusal(self, fresh: Seq<NewMap>) -> Option<MapDataError> {
        if fresh.len() == 0 {
            None
        } else if wrong_length(fresh) is Some {
            Some(MapDataError::ColorLength { found: wrong_length(fresh)->Some_0 as usize })
        } else if fresh.len() > i32::MAX {
            Some(MapDataError::BatchTooLarge)
        } else if self.last + fresh.len() > i32::MAX {
            Some(MapDataError::IdsExhausted)
        } else {
            match first_taken(self.maps, self.last + 1, fresh.len()) {
                Some(id) => Some(MapDataError::AlreadyAllocated { id }),
                None => None,
            }
        }
    }

    /// The maps after a batch was allocated.
    pub open spec fn with_batch(self, fresh: Seq<NewMap>) -> Maps {
        if fresh.len() == 0 {
            self
        } else {
            Maps {
                last: (self.last + fresh.len()) as i32,
                maps: with_fresh(self.maps, self.last + 1, fresh),
                revision: self.revision.wrapping_add(1),
                saved: self.saved,
            }
        }
    }
}

/// Finds a color buffer of the wrong length.
fn check_lengths(maps: &Vec<NewMapData>) -> (wrong: Option<usize>)
    ensures
        match (wrong, wrong_length(new_maps(maps@))) {
            (Some(found), Some(expected)) => found == expected,
            (None, None) => true,
            _ => false,
        },
{
    let ghost fresh = new_maps(maps@);
    let mut i: usize = 0;
    assert(fresh.skip(0) =~= fresh);
    while i < maps.len()
        invariant
            i <= maps.len(),
            fresh == new_maps(maps@),
            wrong_length(fresh) == wrong_length(fresh.skip(i as int)),
        decreases maps.len() - i,
    {
        assert(fresh.skip(i as int).drop_first() =~= fresh.skip(i + 1));
        assert(fresh.skip(i as int)[0] == maps@[i as int]@);
        if maps[i].colors.len() != MAP_COLOR_COUNT {
            return Some(maps[i].colors.len());
        }
        i = i + 1;
    }
    None
}

impl MapDataState {
    /// No maps, so that the first one gets the number zero.
    pub fn new() -> (state: Self)
        ensures
            state@ == (Maps { last: -1i32, maps: Map::empty(), revision: 0, saved: 0 }),
            state@.well_formed(),
    {
        let state = MapDataState {
            last_map_id: -1,
            maps: BTreeMap::new(),
            revision: 0,
            saved_revision: 0,
        };
        assert(state@.maps =~= Map::empty());
        state
    }

    /// The map with a number.
    pub fn get(&self, id: i32) -> (map: Option<&MapItemSavedData>)
        ensures
            match map {
                Some(map) => self@.maps.contains_key(id) && self@.maps[id] == map@,
                None => !self@.maps.contains_key(id),
            },
    {
        self.maps.get(&id)
    }

    /// Allocates one map.
    pub fn create_map(&mut self, map: NewMapData) -> (result: Result<i32, MapDataError>)
        ensures
            match result {
                Ok(id) => {
                    &&& old(self)@.refusal(seq![map@]) is None
                    &&& id == old(self)@.last + 1
                    &&& final(self)@ == old(self)@.with_batch(seq![map@])
                    &&& final(self)@.maps == old(self)@.maps.insert(id, fresh_map(map@))
                },
                Err(error) => old(self)@.refusal(seq![map@]) == Some(error) && final(self)@
                    == old(self)@,
            },
            old(self)@.well_formed() ==> final(self)@.well_formed(),
    {
        let ghost fresh = map@;
        let mut batch: Vec<NewMapData> = Vec::new();
        batch.push(map);
        assert(new_maps(batch@) =~= seq![fresh]);
        match self.create_maps(batch) {
            Ok(ids) => {
                proof {
                    reveal_with_fuel(with_fresh, 2);
                    assert(seq![fresh].drop_last() =~= Seq::empty());
                }
                Ok(ids[0])
            },
            Err(error) => Err(error),
        }
    }

    /// Allocates a batch of maps under successive numbers: all of them, or none.
    pub fn create_maps(&mut self, maps: Vec<NewMapData>) -> (result: Result<
        Vec<i32>,
        MapDataError,
    >)
        ensures
            match result {
                Ok(ids) => {
                    &&& old(self)@.refusal(new_maps(maps@)) is None
                    &&& ids@.len() == maps@.len()
                    &&& forall|i: int|
                        0 <= i < ids@.len() ==> #[trigger] ids@[i] == old(self)@.last + 1 + i
                    &&& final(self)@ == old(self)@.with_batch(new_maps(maps@))
                },
                Err(error) => old(self)@.refusal(new_maps(maps@)) == Some(error) && final(self)@
                    == old(self)@,
            },
            old(self)@.well_formed() ==> final(self)@.well_formed(),
    {
        let ghost fresh = new_maps(maps@);
        let ghost before = self@;
        if maps.len() == 0 {
            return Ok(Vec::new());
        }
        if let Some(found) = check_lengths(&maps) {
            return Err(MapDataError::ColorLength { found });
        }
        let count: usize = maps.len();
        if count > i32::MAX as usize {
            return Err(MapDataError::BatchTooLarge);
        }
        let last: i32 = match self.last_map_id.checked_add(count as i32) {
            Some(last) => last,
            None => {
                return Err(MapDataError::IdsExhausted);
            },
        };
        let first: i32 = self.last_map_id + 1;
        let mut offset: usize = 0;
        #[verifier::loop_isolation(false)]
        while offset < count
            invariant
                offset <= count,
                first_taken(before.maps, first as int, count as nat) == first_taken(
                    before.maps,
                    first + offset,
                    (count - offset) as nat,
                ),
            decreases count - offset,
        {
            let id: i32 = first + offset as i32;
            if self.maps.contains_key(&id) {
                assert(before.maps.contains_key(id));
                return Err(MapDataError::AlreadyAllocated { id });
            }
            assert(!before.maps.contains_key(id));
            offset = offset + 1;
        }
        let mut ids: Vec<i32> = Vec::new();
        let ghost given = maps@;
        assert(fresh.take(0) =~= Seq::empty());
        #[verifier::loop_isolation(false)]
        for map in it: maps
            invariant
                it.seq() == given,
                ids@.len() == it.index(),
                forall|i: int| 0 <= i < ids@.len() ==> #[trigger] ids@[i] == first + i,
                self.last_map_id == before.last,
                self.revision == before.revision,
                self.saved_revision == before.saved,
                saved_maps(self.maps@) == with_fresh(
                    before.maps,
                    first as int,
                    fresh.take(it.index() as int),
                ),
        {
            let ghost index = it.index() as int;
            let id: i32 = first + ids.len() as i32;
            let (center_x, center_z) = MapItemSavedData::fresh_center(map.origin, map.scale);
            let data = MapItemSavedData {
                center_x,
                center_z,
                world: map.world,
                dimension_type: map.dimension_type,
                tracking_position: map.tracking_position,
                unlimited_tracking: map.unlimited_tracking,
                scale: map.scale,
                colors: map.colors,
                locked: false,
            };
            let ghost now = saved_maps(self.maps@);
            let ghost put = data@;
            self.maps.insert(id, data);
            assert(saved_maps(self.maps@) =~= now.insert(id, put));
            assert(fresh.take(index + 1).drop_last() =~= fresh.take(index));
            assert(fresh.take(index + 1).last() == given[index]@);
            ids.push(id);
        }
        assert(fresh.take(count as int) =~= fresh);
        self.last_map_id = last;
        self.revision = self.revision.wrapping_add(1);
        proof {
            if before.well_formed() {
                law_allocation_keeps_maps_well_formed(before, fresh);
            }
        }
        Ok(ids)
    }
}

proof fn lemma_batch_numbers(maps: Map<i32, SavedMap>, first: int, fresh: Seq<NewMap>)
    requires
        0 <= first,
        first + fresh.len() - 1 <= i32::MAX,
        wrong_length(fresh) is None,
    ensures
        forall|id: i32| #[trigger]
            with_fresh(maps, first, fresh).contains_key(id) <==> maps.contains_key(id) || first
                <= id < first + fresh.len(),
        forall|id: i32|
            maps.contains_key(id) && id < first ==> #[trigger] with_fresh(maps, first, fresh)[id]
                == maps[id],
        forall|i: int|
            0 <= i < fresh.len() ==> with_fresh(maps, first, fresh)[(first + i) as i32]
                == fresh_map(#[trigger] fresh[i]),
    decreases fresh.len(),
{
    if fresh.len() > 0 {
        lemma_lengths(fresh);
        let before = fresh.drop_last();
        assert forall|i: int| 0 <= i < before.len() implies (#[trigger] before[i]).colors.len()
            == MAP_COLOR_COUNT by {
            assert(before[i] == fresh[i]);
        }
        lemma_lengths(before);
        lemma_batch_numbers(maps, first, before);
        assert forall|i: int| 0 <= i < fresh.len() implies with_fresh(maps, first, fresh)[(first
            + i) as i32] == fresh_map(#[trigger] fresh[i]) by {
            if i < fresh.len() - 1 {
                assert(before[i] == fresh[i]);
            }
        }
    }
}

proof fn lemma_lengths(maps: Seq<NewMap>)
    ensures
        wrong_length(maps) is None <==> forall|i: int|
            0 <= i < maps.len() ==> (#[trigger] maps[i]).colors.len() == MAP_COLOR_COUNT,
    decreases maps.len(),
{
    if maps.len() > 0 && maps[0].colors.len() == MAP_COLOR_COUNT {
        let rest = maps.drop_first();
        lemma_lengths(rest);
        if wrong_length(maps) is None {
            assert forall|i: int| 0 <= i < maps.len() implies (#[trigger] maps[i]).colors.len()
                == MAP_COLOR_COUNT by {
                if i > 0 {
                    assert(rest[i - 1] == maps[i]);
                }
            }
        } else {
            let i = choose|i: int|
                0 <= i < rest.len() && (#[trigger] rest[i]).colors.len() != MAP_COLOR_COUNT;
            assert(maps[i + 1] == rest[i]);
        }
    }
}

proof fn lemma_none_taken(maps: Map<i32, SavedMap>, first: int, count: nat)
    requires
        i32::MIN <= first,
        first + count - 1 <= i32::MAX,
        forall|id: i32| first <= id < first + count ==> !#[trigger] maps.contains_key(id),
    ensures
        first_taken(maps, first, count) is None,
    decreases count,
{
    if count > 0 {
        assert(!maps.contains_key(first as i32));
        lemma_none_taken(maps, first + 1, (count - 1) as nat);
    }
}

/// Where the map numbers run from zero to the last one, a batch is refused only for
/// its colors, its size or for want of numbers; an allocated batch gets the next
/// numbers, changes no earlier map, and leaves the numbers in order.
pub proof fn law_allocation_keeps_maps_well_formed(state: Maps, fresh: Seq<NewMap>)
    requires
        state.well_formed(),
    ensures
        !(state.refusal(fresh) matches Some(MapDataError::AlreadyAllocated { .. })),
        state.refusal(fresh) is None ==> {
            &&& state.with_batch(fresh).well_formed()
            &&& forall|id: i32| #[trigger]
                state.maps.contains_key(id) ==> state.with_batch(fresh).maps[id] == state.maps[id]
            &&& forall|i: int|
                0 <= i < fresh.len() ==> state.with_batch(fresh).maps[(state.last + 1 + i) as i32]
                    == fresh_map(#[trigger] fresh[i])
        },
{
    if fresh.len() > 0 && wrong_length(fresh) is None && state.last + fresh.len() <= i32::MAX {
        lemma_none_taken(state.maps, state.last + 1, fresh.len());
        lemma_batch_numbers(state.maps, state.last + 1, fresh);
        lemma_lengths(fresh);
        let after = state.with_batch(fresh);
        assert forall|id: i32| #[trigger] after.maps.contains_key(id) implies 0 <= id <= after.last
            && after.maps[id].colors.len() == MAP_COLOR_COUNT by {
            if !state.maps.contains_key(id) {
                assert(after.maps[(state.last + 1 + (id - state.last - 1)) as i32] == fresh_map(
                    fresh[id - state.last - 1],
                ));
            }
        }
    }
}

/// A stored map with its number, as a mathematical value.
#[verifier::ext_equal]
pub ghost struct Stored {
    pub id: i32,
    pub map: SavedMap,
}

/// A stored map with its number.
#[derive(Debug)]
pub struct PersistentMapItemSavedData {
    pub id: i32,
    pub map: MapItemSavedData,
}

impl View for PersistentMapItemSavedData {
    type V = Stored;

    open spec fn view(&self) -> Stored {
        Stored { id: self.id, map: self.map@ }
    }
}

/// The stored form of a domain's maps.
#[derive(Debug)]
pub struct PersistentMapData {
    pub last_map_id: i32,
    pub maps: Vec<PersistentMapItemSavedData>,
}

/// The maps of a list.
pub open spec fn stored_maps(maps: Seq<PersistentMapItemSavedData>) -> Seq<Stored> {
    Seq::new(maps.len(), |i: int| maps[i]@)
}

/// The scale of a stored map, within the scales that maps can have.
pub open spec fn clamped_scale(scale: i8) -> i8 {
    if scale < 0 {
        0
    } else if scale > 4 {
        4
    } else {
        scale
    }
}

/// A stored map with its scale within bounds.
pub open spec fn clamped(map: SavedMap) -> SavedMap {
    SavedMap { scale: clamped_scale(map.scale), ..map }
}

/// The maps after stored ones were added to them, or why one of these is refused.
pub open spec fn restored_maps(maps: Map<i32, SavedMap>, stored: Seq<Stored>) -> Result<
    Map<i32, SavedMap>,
    MapDataError,
>
    decreases stored.len(),
{
    if stored.len() == 0 {
        Ok(maps)
    } else {
        let map = stored[0];
        if map.id < 0 {
            Err(MapDataError::NegativeId { id: map.id })
        } else if map.map.colors.len() != MAP_COLOR_COUNT {
            Err(
                MapDataError::StoredColorLength { id: map.id, found: map.map.colors.len() as usize },
            )
        } else if maps.contains_key(map.id) {
            Err(MapDataError::DuplicateId { id: map.id })
        } else {
            restored_maps(maps.insert(map.id, clamped(map.map)), stored.drop_first())
        }
    }
}

/// A stored map has a number above a given one.
pub open spec fn exceeds(stored: Seq<Stored>, last: i32) -> bool {
    exists|i: int| 0 <= i < stored.len() && (#[trigger] stored[i]).id > last
}

/// The maps that a stored form denotes, or why it is refused.
pub open spec fn restored_state(last: i32, stored: Seq<Stored>) -> Result<Maps, MapDataError> {
    if last < -1 {
        Err(MapDataError::InvalidLastId { id: last })
    } else {
        match restored_maps(Map::empty(), stored) {
            Err(error) => Err(error),
            Ok(maps) => if exceeds(stored, last) {
                Err(MapDataError::LastIdTooLow)
            } else {
                Ok(Maps { last, maps, revision: 0, saved: 0 })
            },
        }
    }
}

proof fn lemma_increasing(keys: Seq<i32>)
    requires
        vstd::std_specs::btree::increasing_seq(keys),
    ensures
        forall|i: int, j: int| 0 <= i < j < keys.len() ==> #[trigger] keys[i] < #[trigger] keys[j],
{
    assert(vstd::laws_cmp::obeys_cmp::<i32>());
    assert forall|i: int, j: int| 0 <= i < j < keys.len() implies #[trigger] keys[i]
        < #[trigger] keys[j] by {
        assert(vstd::std_specs::cmp::OrdSpec::cmp_spec(&keys[i], &keys[j]) is Less);
    }
}

/// A stored form of maps: each of them once, in the order of their numbers.
pub open spec fn stores(stored: Seq<Stored>, maps: Map<i32, SavedMap>) -> bool {
    &&& forall|i: int|
        0 <= i < stored.len() ==> maps.contains_key((#[trigger] stored[i]).id)
            && maps[stored[i].id] == stored[i].map
    &&& forall|i: int, j: int|
        0 <= i < j < stored.len() ==> (#[trigger] stored[i]).id < (#[trigger] stored[j]).id
    &&& forall|id: i32| #[trigger]
        maps.contains_key(id) ==> exists|i: int|
            0 <= i < stored.len() && (#[trigger] stored[i]).id == id
}

impl MapDataState {
    /// Reads the stored form.
    pub fn from_persistent(persistent: PersistentMapData) -> (result: Result<Self, MapDataError>)
        ensures
            match (result, restored_state(
                persistent.last_map_id,
                stored_maps(persistent.maps@),
            )) {
                (Ok(state), Ok(expected)) => state@ == expected && state@.well_formed(),
                (Err(error), Err(expected)) => error == expected,
                _ => false,
            },
    {
        let last: i32 = persistent.last_map_id;
        if last < -1 {
            return Err(MapDataError::InvalidLastId { id: last });
        }
        let given_maps = persistent.maps;
        let ghost given = given_maps@;
        let ghost stored = stored_maps(given);
        let mut maps: BTreeMap<i32, MapItemSavedData> = BTreeMap::new();
        let mut too_high: bool = false;
        assert(saved_maps(maps@) =~= Map::empty());
        assert(stored.skip(0) =~= stored);
        #[verifier::loop_isolation(false)]
        for item in it: given_maps
            invariant
                it.seq() == given,
                restored_maps(Map::empty(), stored) == restored_maps(
                    saved_maps(maps@),
                    stored.skip(it.index() as int),
                ),
                too_high == exceeds(stored.take(it.index() as int), last),
                forall|id: i32| #[trigger]
                    saved_maps(maps@).contains_key(id) ==> 0 <= id && (id <= last || too_high)
                        && saved_maps(maps@)[id].colors.len() == MAP_COLOR_COUNT,
        {
            let ghost index = it.index() as int;
            let ghost rest = stored.skip(index);
            assert(rest[0] == given[index]@);
            assert(rest.drop_first() =~= stored.skip(index + 1));
            let id: i32 = item.id;
            let map = item.map;
            if id < 0 {
                return Err(MapDataError::NegativeId { id });
            }
            if map.colors.len() != MAP_COLOR_COUNT {
                return Err(MapDataError::StoredColorLength { id, found: map.colors.len() });
            }
            let ghost now = saved_maps(maps@);
            if maps.contains_key(&id) {
                assert(now.contains_key(id));
                return Err(MapDataError::DuplicateId { id });
            }
            let mut map = map;
            if map.scale < 0 {
                map.scale = 0;
            } else if map.scale > 4 {
                map.scale = 4;
            }
            let ghost put = map@;
            assert(put =~= clamped(stored[index].map));
            maps.insert(id, map);
            assert(saved_maps(maps@) =~= now.insert(id, put));
            let ghost seen = stored.take(index);
            let ghost more = stored.take(index + 1);
            proof {
                assert(more[index].id == id);
                if exceeds(seen, last) {
                    let i = choose|i: int| 0 <= i < seen.len() && (#[trigger] seen[i]).id > last;
                    assert(more[i].id > last);
                }
                if exceeds(more, last) && id <= last {
                    let i = choose|i: int| 0 <= i < more.len() && (#[trigger] more[i]).id > last;
                    assert(seen[i].id > last);
                }
            }
            if id > last {
                too_high = true;
            }
        }
        assert(stored.skip(stored.len() as int) =~= Seq::empty());
        assert(stored.take(stored.len() as int) =~= stored);
        if too_high {
            return Err(MapDataError::LastIdTooLow);
        }
        Ok(MapDataState { last_map_id: last, maps, revision: 0, saved_revision: 0 })
    }

    /// The stored form and its revision, where there are changes to be saved.
    pub fn persistent_snapshot(&self) -> (snapshot: Option<(u64, PersistentMapData)>)
        ensures
            match snapshot {
                None => self@.revision == self@.saved,
                Some((revision, data)) => {
                    &&& self@.revision != self@.saved
                    &&& revision == self@.revision
                    &&& data.last_map_id == self@.last
                    &&& stores(stored_maps(data.maps@), self@.maps)
                },
            },
    {
        if self.revision == self.saved_revision {
            return None;
        }
        let mut maps: Vec<PersistentMapItemSavedData> = Vec::new();
        let entries = self.maps.iter();
        let ghost pairs = entries.remaining();
        #[verifier::loop_isolation(false)]
        for entry in it: entries
            invariant
                it.seq() == pairs,
                maps@.len() == it.index(),
                forall|i: int|
                    0 <= i < maps@.len() ==> (#[trigger] maps@[i]).id == *pairs[i].0
                        && maps@[i].map@ == pairs[i].1@,
        {
            let (id, map) = entry;
            maps.push(PersistentMapItemSavedData { id: *id, map: map.copy() });
        }
        proof {
            let stored = stored_maps(maps@);
            let keys = pairs.map_values(|pair: (&i32, &MapItemSavedData)| *pair.0);
            lemma_increasing(keys);
            assert forall|i: int, j: int| 0 <= i < j < stored.len() implies (
            #[trigger] stored[i]).id < (#[trigger] stored[j]).id by {
                assert(keys[i] == stored[i].id && keys[j] == stored[j].id);
            }
            assert forall|i: int| 0 <= i < stored.len() implies self@.maps.contains_key(
                (#[trigger] stored[i]).id,
            ) && self@.maps[stored[i].id] == stored[i].map by {
                assert(self.maps@.contains_key(*pairs[i].0));
            }
            assert forall|id: i32| #[trigger] self@.maps.contains_key(id) implies exists|i: int|
                0 <= i < stored.len() && (#[trigger] stored[i]).id == id by {
                assert(self.maps@.contains_key(id));
                assert(pairs.contains((&id, &self.maps@[id])));
                let i = choose|i: int| 0 <= i < pairs.len() && pairs[i] == (&id, &self.maps@[id]);
                assert(stored[i].id == id);
            }
        }
        Some((self.revision, PersistentMapData { last_map_id: self.last_map_id, maps }))
    }

    /// Notes that a revision was saved, unless the maps have changed since.
    pub fn finish_save(&mut self, revision: u64)
        ensures
            final(self)@ == (Maps {
                saved: if old(self)@.revision == revision {
                    revision
                } else {
                    old(self)@.saved
                },
                ..old(self)@
            }),
    {
        if self.revision == revision {
            self.saved_revision = revision;
        }
    }
}

proof fn lemma_restoring(maps: Map<i32, SavedMap>, stored: Seq<Stored>)
    requires
        forall|i: int|
            0 <= i < stored.len() ==> (#[trigger] stored[i]).id >= 0 && stored[i].map.colors.len()
                == MAP_COLOR_COUNT && !maps.contains_key(stored[i].id),
        forall|i: int, j: int|
            0 <= i < j < stored.len() ==> (#[trigger] stored[i]).id < (#[trigger] stored[j]).id,
    ensures
        restored_maps(maps, stored) is Ok,
        forall|id: i32| #[trigger]
            (restored_maps(maps, stored)->Ok_0).contains_key(id) <==> maps.contains_key(id)
                || exists|i: int| 0 <= i < stored.len() && (#[trigger] stored[i]).id == id,
        forall|id: i32| #[trigger]
            maps.contains_key(id) ==> (restored_maps(maps, stored)->Ok_0)[id] == maps[id],
        forall|i: int|
            0 <= i < stored.len() ==> (restored_maps(maps, stored)->Ok_0)[(
            #[trigger] stored[i]).id] == clamped(stored[i].map),
    decreases stored.len(),
{
    if stored.len() > 0 {
        let rest = stored.drop_first();
        let next = maps.insert(stored[0].id, clamped(stored[0].map));
        assert forall|i: int| 0 <= i < rest.len() implies (#[trigger] rest[i]).id >= 0
            && rest[i].map.colors.len() == MAP_COLOR_COUNT && !next.contains_key(rest[i].id) by {
            assert(rest[i] == stored[i + 1]);
            assert(stored[0].id < stored[i + 1].id);
        }
        assert forall|i: int, j: int| 0 <= i < j < rest.len() implies (#[trigger] rest[i]).id < (
        #[trigger] rest[j]).id by {
            assert(rest[i] == stored[i + 1] && rest[j] == stored[j + 1]);
        }
        lemma_restoring(next, rest);
        let loaded = restored_maps(next, rest)->Ok_0;
        assert(restored_maps(maps, stored) == restored_maps(next, rest));
        assert forall|id: i32| #[trigger] loaded.contains_key(id) <==> maps.contains_key(id)
            || exists|i: int| 0 <= i < stored.len() && (#[trigger] stored[i]).id == id by {
            if exists|i: int| 0 <= i < stored.len() && (#[trigger] stored[i]).id == id {
                let i = choose|i: int| 0 <= i < stored.len() && (#[trigger] stored[i]).id == id;
                if i > 0 {
                    assert(rest[i - 1].id == id);
                }
            }
            if exists|i: int| 0 <= i < rest.len() && (#[trigger] rest[i]).id == id {
                let i = choose|i: int| 0 <= i < rest.len() && (#[trigger] rest[i]).id == id;
                assert(stored[i + 1].id == id);
            }
        }
        assert forall|id: i32| #[trigger] maps.contains_key(id) implies loaded[id] == maps[id] by {
            assert(next.contains_key(id));
        }
        assert forall|i: int| 0 <= i < stored.len() implies loaded[(#[trigger] stored[i]).id]
            == clamped(stored[i].map) by {
            if i == 0 {
                assert(next.contains_key(stored[0].id));
            } else {
                assert(rest[i - 1] == stored[i]);
            }
        }
    }
}

/// Maps that are saved are read back, each under its number and with its scale
/// within bounds, and the numbers go on from the last one.
pub proof fn law_saved_maps_are_read_back(state: Maps, stored: Seq<Stored>)
    requires
        state.well_formed(),
        stores(stored, state.maps),
    ensures
        restored_state(state.last, stored) == Ok::<Maps, MapDataError>(
            Maps {
                last: state.last,
                maps: state.maps.map_values(|map: SavedMap| clamped(map)),
                revision: 0,
                saved: 0,
            },
        ),
{
    assert forall|i: int| 0 <= i < stored.len() implies (#[trigger] stored[i]).id >= 0
        && stored[i].map.colors.len() == MAP_COLOR_COUNT by {
        assert(state.maps.contains_key(stored[i].id));
    }
    lemma_restoring(Map::empty(), stored);
    let loaded = restored_maps(Map::empty(), stored)->Ok_0;
    let expected = state.maps.map_values(|map: SavedMap| clamped(map));
    assert forall|id: i32| #[trigger] loaded.contains_key(id) <==> expected.contains_key(id) by {}
    assert forall|id: i32| #[trigger] loaded.contains_key(id) implies loaded[id]
        == expected[id] by {
        let i = choose|i: int| 0 <= i < stored.len() && (#[trigger] stored[i]).id == id;
        assert(loaded[stored[i].id] == clamped(stored[i].map));
    }
    assert(loaded =~= expected);
    assert(!exceeds(stored, state.last));
}

proof fn lemma_fresh_maps(maps: Map<i32, SavedMap>, first: int, fresh: Seq<NewMap>)
    requires
        0 <= first,
        first + fresh.len() - 1 <= i32::MAX,
    ensures
        ({
            let after = with_fresh(maps, first, fresh);
            &&& forall|id: i32|
                first <= id < first + fresh.len() ==> #[trigger] after.contains_key(id) && after[id]
                    == fresh_map(fresh[id - first])
            &&& forall|id: i32|
                !(first <= id < first + fresh.len()) ==> (#[trigger] after.contains_key(id)
                    <==> maps.contains_key(id)) && (maps.contains_key(id) ==> after[id] == maps[id])
        }),
    decreases fresh.len(),
{
    if fresh.len() > 0 {
        let earlier = fresh.drop_last();
        lemma_fresh_maps(maps, first, earlier);
        let after = with_fresh(maps, first, fresh);
        let before = with_fresh(maps, first, earlier);
        assert forall|id: i32| first <= id < first + fresh.len() implies #[trigger] after.contains_key(
            id,
        ) && after[id] == fresh_map(fresh[id - first]) by {
            if id < first + earlier.len() {
                assert(before.contains_key(id));
                assert(earlier[id - first] == fresh[id - first]);
            }
        }
        assert forall|id: i32| !(first <= id < first + fresh.len()) implies (
        #[trigger] after.contains_key(id) <==> maps.contains_key(id)) && (maps.contains_key(id)
            ==> after[id] == maps[id]) by {
            assert(before.contains_key(id) <==> maps.contains_key(id));
        }
    }
}

proof fn lemma_taken(maps: Map<i32, SavedMap>, first: int, count: nat)
    requires
        0 <= first,
        first + count - 1 <= i32::MAX,
    ensures
        match first_taken(maps, first, count) {
            Some(id) => first <= id < first + count && maps.contains_key(id) && forall|lower: i32|
                first <= lower < id ==> !#[trigger] maps.contains_key(lower),
            None => forall|id: i32|
                first <= id < first + count ==> !#[trigger] maps.contains_key(id),
        },
    decreases count,
{
    if count > 0 && !maps.contains_key(first as i32) {
        lemma_taken(maps, first + 1, (count - 1) as nat);
    }
}

/// A batch of maps gets the numbers that follow the last one that was given, in order:
/// each map is found under its own number with what it was made from, the maps there
/// were stay, and the last number is that of the last map.
pub proof fn law_batch_gets_the_following_numbers(before: Maps, fresh: Seq<NewMap>, i: int)
    requires
        before.last >= -1,
        before.refusal(fresh) is None,
        0 <= i < fresh.len(),
    ensures
        ({
            let after = before.with_batch(fresh);
            let id = before.last + 1 + i;
            let map = after.maps[id as i32];
            &&& id <= i32::MAX
            &&& !before.maps.contains_key(id as i32)
            &&& after.maps.contains_key(id as i32)
            &&& map.world == fresh[i].world
            &&& map.scale == fresh[i].scale
            &&& map.colors == fresh[i].colors
            &&& map.center_x == center_of(fresh[i].origin.x, fresh[i].scale)
            &&& map.center_z == center_of(fresh[i].origin.z, fresh[i].scale)
            &&& map.tracking_position == fresh[i].tracking_position
            &&& map.unlimited_tracking == fresh[i].unlimited_tracking
            &&& !map.locked
            &&& after.last == before.last + fresh.len()
            &&& forall|old_id: i32| #[trigger]
                before.maps.contains_key(old_id) ==> after.maps.contains_key(old_id)
                    && after.maps[old_id] == before.maps[old_id]
            &&& forall|other: i32| #[trigger]
                after.maps.contains_key(other) && !before.maps.contains_key(other) ==> before.last
                    < other <= after.last
        }),
{
    let first = before.last + 1;
    lemma_fresh_maps(before.maps, first, fresh);
    lemma_taken(before.maps, first, fresh.len());
    let after = before.with_batch(fresh);
    let given = (first + i) as i32;
    assert(after.maps.contains_key(given));
    assert forall|old_id: i32| #[trigger] before.maps.contains_key(old_id) implies after.maps.contains_key(
        old_id,
    ) && after.maps[old_id] == before.maps[old_id] by {
        assert(!(first <= old_id < first + fresh.len()));
    }
}

/// A batch is refused just where a map has the wrong number of colors, there are too
/// many maps, or a number that they would get is taken: then the first such number is
/// told.
pub proof fn law_batch_is_refused_for_a_reason(before: Maps, fresh: Seq<NewMap>)
    requires
        before.last >= -1,
        0 < fresh.len() <= i32::MAX,
    ensures
        ({
            let lengths = forall|i: int|
                0 <= i < fresh.len() ==> (#[trigger] fresh[i]).colors.len() == MAP_COLOR_COUNT;
            let room = before.last + fresh.len() <= i32::MAX;
            let free = forall|id: i32|
                before.last < id <= before.last + fresh.len() ==> !#[trigger] before.maps.contains_key(
                    id,
                );
            &&& before.refusal(fresh) is None <==> lengths && room && free
            &&& lengths && !room ==> before.refusal(fresh) == Some(MapDataError::IdsExhausted)
            &&& before.refusal(fresh) matches Some(MapDataError::AlreadyAllocated { id }) ==> {
                &&& before.maps.contains_key(id)
                &&& before.last < id <= before.last + fresh.len()
            }
        }),
{
    lemma_wrong_length(fresh);
    if before.last + fresh.len() <= i32::MAX {
        lemma_taken(before.maps, before.last + 1, fresh.len());
    }
}

proof fn lemma_wrong_length(maps: Seq<NewMap>)
    ensures
        wrong_length(maps) is None <==> forall|i: int|
            0 <= i < maps.len() ==> (#[trigger] maps[i]).colors.len() == MAP_COLOR_COUNT,
    decreases maps.len(),
{
    if maps.len() > 0 && maps[0].colors.len() == MAP_COLOR_COUNT {
        let rest = maps.drop_first();
        lemma_wrong_length(rest);
        if wrong_length(rest) is None {
            assert forall|i: int| 0 <= i < maps.len() implies (#[trigger] maps[i]).colors.len()
                == MAP_COLOR_COUNT by {
                if i > 0 {
                    assert(rest[i - 1] == maps[i]);
                }
            }
        } else {
            let i = choose|i: int|
                0 <= i < rest.len() && (#[trigger] rest[i]).colors.len() != MAP_COLOR_COUNT;
            assert(maps[i + 1].colors.len() != MAP_COLOR_COUNT);
        }
    }
}

} // verus!
