//! Synchronization of carried maps with the players who carry them.
use rustc_hash::{FxHashMap, FxHashSet};

use vstd::prelude::*;
use vstd::std_specs::iter::IteratorSpec;

use crate::hashing::fx_hasher;
use crate::map::store::Maps;
use crate::map::terrain::{law_merged_bounds_cover_both, ChunkPos, MapDirtyBounds};
use crate::map::tracking::{
    carried_maps, holder_place, lemma_joined_and_left, with_entries, with_next_step, with_request, Carried, CarriedMap,
    Followed, Holder, PlayerSession, TrackedMap,
};

verus! {

/// Who carries which maps, as a mathematical value.
#[verifier::ext_equal]
pub ghost struct Tracking {
    pub maps: Map<i32, Followed>,
    pub players: Map<u128, Set<i32>>,
}

/// Who carries which maps.
#[derive(Debug)]
pub struct MapTrackingState {
    pub maps: FxHashMap<i32, TrackedMap>,
    /// The maps that each player carries.
    pub player_maps: FxHashMap<u128, FxHashSet<i32>>,
}

impl View for MapTrackingState {
    type V = Tracking;

    open spec fn view(&self) -> Tracking {
        Tracking { maps: followed_maps(self.maps@), players: player_sets(self.player_maps@) }
    }
}

/// The maps as mathematical values.
pub open spec fn followed_maps(maps: Map<i32, TrackedMap>) -> Map<i32, Followed> {
    Map::new(|id: i32| maps.contains_key(id), |id: i32| maps[id]@)
}

/// The players' maps as mathematical values.
pub open spec fn player_sets(players: Map<u128, FxHashSet<i32>>) -> Map<u128, Set<i32>> {
    Map::new(|uuid: u128| players.contains_key(uuid), |uuid: u128| players[uuid]@)
}

/// Maps with one of them changed.
pub open spec fn with_change(
    maps: Map<i32, Followed>,
    id: i32,
    change: spec_fn(Followed) -> Followed,
) -> Map<i32, Followed> {
    if maps.contains_key(id) {
        maps.insert(id, change(maps[id]))
    } else {
        maps
    }
}

/// Maps with some of them changed.
pub open spec fn with_changes(
    maps: Map<i32, Followed>,
    ids: Set<i32>,
    change: spec_fn(Followed) -> Followed,
) -> Map<i32, Followed> {
    Map::new(
        |id: i32| maps.contains_key(id),
        |id: i32|
            if ids.contains(id) {
                change(maps[id])
            } else {
                maps[id]
            },
    )
}

/// A map that nobody carries.
pub open spec fn unfollowed() -> Followed {
    Followed { holders: Seq::empty(), entries: Seq::empty(), icons: Seq::empty() }
}

/// The entries of those of the carried maps that have a number.
pub open spec fn entries_on(
    entries: Seq<(Seq<char>, crate::map::tracking::Entry)>,
    carried: Seq<Carried>,
    id: i32,
) -> Seq<(Seq<char>, crate::map::tracking::Entry)>
    decreases carried.len(),
{
    if carried.len() == 0 {
        entries
    } else {
        let before = entries_on(entries, carried.drop_last(), id);
        if carried.last().id == id {
            with_entries(before, carried.last().entries)
        } else {
            before
        }
    }
}

/// A map after a player was added to those who carry it, with what they carry.
pub open spec fn carried_by(followed: Followed, player: PlayerSession, carried: Seq<Carried>, id: i32) -> Followed {
    let joined = followed.joined(player);
    Followed { entries: entries_on(joined.entries, carried, id), ..joined }
}

/// Maps after a player was added to those who carry them.
pub open spec fn with_player(
    maps: Map<i32, Followed>,
    player: PlayerSession,
    carried: Seq<Carried>,
    ids: Seq<i32>,
) -> Map<i32, Followed>
    decreases ids.len(),
{
    if ids.len() == 0 {
        maps
    } else {
        let before = with_player(maps, player, carried, ids.drop_last());
        let id = ids.last();
        before.insert(
            id,
            carried_by(
                if before.contains_key(id) {
                    before[id]
                } else {
                    unfollowed()
                },
                player,
                carried,
                id,
            ),
        )
    }
}

impl Tracking {
    /// The maps that a player carries.
    pub open spec fn maps_of(self, uuid: u128) -> Set<i32> {
        if self.players.contains_key(uuid) {
            self.players[uuid]
        } else {
            Set::empty()
        }
    }

    /// After a player ceased to carry one map.
    pub open spec fn without_holder(self, id: i32, uuid: u128) -> Tracking {
        let left = self.maps_of(uuid).remove(id);
        Tracking {
            maps: with_change(self.maps, id, |map: Followed| map.without_holder(uuid)),
            players: if !self.players.contains_key(uuid) {
                self.players
            } else if left.is_empty() {
                self.players.remove(uuid)
            } else {
                self.players.insert(uuid, left)
            },
        }
    }

    /// After a player was gone.
    pub open spec fn without_player(self, uuid: u128) -> Tracking {
        Tracking {
            maps: with_changes(
                self.maps,
                self.maps_of(uuid),
                |map: Followed| map.without_holder(uuid),
            ),
            players: self.players.remove(uuid),
        }
    }

    /// After a player's chunk requests were dropped for some maps.
    pub open spec fn without_requests(self, ids: Set<i32>, uuid: u128) -> Tracking {
        Tracking {
            maps: with_changes(
                self.maps,
                ids,
                |map: Followed| map.with_holder(uuid, with_request(None)),
            ),
            ..self
        }
    }

    /// After it was seen which maps a player carries.
    pub open spec fn with_carried(
        self,
        player: PlayerSession,
        carried: Seq<Carried>,
        ids: Seq<i32>,
    ) -> Tracking {
        let gone = self.maps_of(player.uuid).difference(ids.to_set());
        let left = with_changes(
            self.maps,
            gone,
            |map: Followed| map.without_holder(player.uuid),
        );
        Tracking {
            maps: with_player(left, player, carried, ids),
            players: if ids.len() == 0 {
                self.players.remove(player.uuid)
            } else {
                self.players.insert(player.uuid, ids.to_set())
            },
        }
    }

    /// What has yet to be sent lies on the maps.
    pub open spec fn sound(self) -> bool {
        forall|id: i32| #[trigger] self.maps.contains_key(id) ==> self.maps[id].sound()
    }
}

/// Lists the numbers of a set.
fn list_ids(ids: &FxHashSet<i32>) -> (listed: Vec<i32>)
    ensures
        listed@.no_duplicates(),
        listed@.to_set() == ids@,
{
    let _hasher = fx_hasher();
    let mut listed: Vec<i32> = Vec::new();
    let items = ids.iter();
    let ghost all = items.remaining();
    #[verifier::loop_isolation(false)]
    for id in it: items
        invariant
            it.seq() == all,
            listed@.len() == it.index(),
            forall|i: int| 0 <= i < listed@.len() ==> #[trigger] listed@[i] == *all[i],
    {
        listed.push(*id);
    }
    assert(listed@ =~= all.unref());
    listed
}

/// Lists the numbers of maps.
fn list_maps(maps: &FxHashMap<i32, TrackedMap>) -> (listed: Vec<i32>)
    ensures
        listed@.no_duplicates(),
        listed@.to_set() == maps@.dom(),
{
    let _hasher = fx_hasher();
    let mut listed: Vec<i32> = Vec::new();
    let items = maps.keys();
    let ghost all = items.remaining();
    #[verifier::loop_isolation(false)]
    for id in it: items
        invariant
            it.seq() == all,
            listed@.len() == it.index(),
            forall|i: int| 0 <= i < listed@.len() ==> #[trigger] listed@[i] == *all[i],
    {
        listed.push(*id);
    }
    assert(listed@ =~= all.unref());
    listed
}

impl MapTrackingState {
    /// Nobody carries a map.
    pub fn new() -> (tracking: Self)
        ensures
            tracking@ == (Tracking { maps: Map::empty(), players: Map::empty() }),
            tracking@.sound(),
    {
        let tracking = MapTrackingState {
            maps: FxHashMap::default(),
            player_maps: FxHashMap::default(),
        };
        assert(tracking@.maps =~= Map::empty());
        assert(tracking@.players =~= Map::empty());
        tracking
    }

    /// Takes a holder off one map.
    fn drop_from_map(&mut self, id: i32, uuid: u128)
        ensures
            final(self)@ == (Tracking {
                maps: with_change(
                    old(self)@.maps,
                    id,
                    |map: Followed| map.without_holder(uuid),
                ),
                ..old(self)@
            }),
    {
        let _hasher = fx_hasher();
        let ghost before = self@;
        let ghost change = |map: Followed| map.without_holder(uuid);
        if let Some(mut map) = self.maps.remove(&id) {
            map.remove_holder(uuid);
            self.maps.insert(id, map);
        }
        assert(self@.maps =~= with_change(before.maps, id, change));
    }

    /// Takes a holder off the listed maps.
    fn drop_from_maps(&mut self, ids: &Vec<i32>, uuid: u128)
        requires
            ids@.no_duplicates(),
        ensures
            final(self)@ == (Tracking {
                maps: with_changes(
                    old(self)@.maps,
                    ids@.to_set(),
                    |map: Followed| map.without_holder(uuid),
                ),
                ..old(self)@
            }),
    {
        let ghost before = self@;
        let ghost change = |map: Followed| map.without_holder(uuid);
        let mut i: usize = 0;
        assert(self@.maps =~= with_changes(before.maps, ids@.take(0).to_set(), change));
        while i < ids.len()
            invariant
                i <= ids@.len(),
                ids@.no_duplicates(),
                change == (|map: Followed| map.without_holder(uuid)),
                self@ == (Tracking {
                    maps: with_changes(before.maps, ids@.take(i as int).to_set(), change),
                    ..before
                }),
            decreases ids@.len() - i,
        {
            let ghost now = self@.maps;
            self.drop_from_map(ids[i], uuid);
            proof {
                lemma_next_change(before.maps, ids@, i as int, change);
            }
            i = i + 1;
        }
        assert(ids@.take(i as int) =~= ids@);
    }

    /// Removes all that is known of a player.
    pub fn remove_player(&mut self, uuid: u128)
        ensures
            final(self)@ == old(self)@.without_player(uuid),
            old(self)@.sound() ==> final(self)@.sound(),
    {
        let _hasher = fx_hasher();
        let ghost before = self@;
        let ghost change = |map: Followed| map.without_holder(uuid);
        match self.player_maps.remove(&uuid) {
            Some(ids) => {
                let listed = list_ids(&ids);
                assert(self@.players =~= before.players.remove(uuid));
                assert(self@.maps =~= before.maps);
                self.drop_from_maps(&listed, uuid);
            },
            None => {
                assert(self@.players =~= before.players.remove(uuid));
                assert(self@.maps =~= with_changes(before.maps, Set::empty(), change));
            },
        }
    }

    /// Notes that a player has ceased to carry a map.
    pub fn remove_holder(&mut self, id: i32, uuid: u128)
        ensures
            final(self)@ == old(self)@.without_holder(id, uuid),
            old(self)@.sound() ==> final(self)@.sound(),
    {
        let _hasher = fx_hasher();
        let ghost before = self@;
        self.drop_from_map(id, uuid);
        let ghost maps = self@.maps;
        if let Some(mut ids) = self.player_maps.remove(&uuid) {
            ids.remove(&id);
            if !ids.is_empty() {
                self.player_maps.insert(uuid, ids);
            }
        }
        assert(self@.maps =~= maps);
        assert(self@.players =~= before.without_holder(id, uuid).players);
    }
}

proof fn lemma_next_change(
    maps: Map<i32, Followed>,
    ids: Seq<i32>,
    i: int,
    change: spec_fn(Followed) -> Followed,
)
    requires
        0 <= i < ids.len(),
        ids.no_duplicates(),
    ensures
        with_change(with_changes(maps, ids.take(i).to_set(), change), ids[i], change)
            == with_changes(maps, ids.take(i + 1).to_set(), change),
{
    let before = ids.take(i);
    let after = ids.take(i + 1);
    assert(!before.to_set().contains(ids[i])) by {
        if before.contains(ids[i]) {
            let j = choose|j: int| 0 <= j < before.len() && before[j] == ids[i];
            assert(ids[j] == ids[i]);
        }
    }
    assert forall|id: i32| #[trigger] after.to_set().contains(id) <==> before.to_set().contains(id)
        || id == ids[i] by {
        if before.contains(id) {
            let j = choose|j: int| 0 <= j < before.len() && before[j] == id;
            assert(after[j] == id);
        }
        assert(after[i] == ids[i]);
        if after.contains(id) && id != ids[i] {
            let j = choose|j: int| 0 <= j < after.len() && after[j] == id;
            assert(before[j] == id);
        }
    }
    assert(with_change(with_changes(maps, before.to_set(), change), ids[i], change)
        =~= with_changes(maps, after.to_set(), change));
}

/// The listed numbers that are not in a set.
fn outside(ids: &Vec<i32>, set: &FxHashSet<i32>) -> (others: Vec<i32>)
    requires
        ids@.no_duplicates(),
    ensures
        others@.no_duplicates(),
        others@.to_set() == ids@.to_set().difference(set@),
{
    let _hasher = fx_hasher();
    let mut others: Vec<i32> = Vec::new();
    let mut i: usize = 0;
    while i < ids.len()
        invariant
            i <= ids@.len(),
            ids@.no_duplicates(),
            crate::hashing::sound(_hasher),
            others@.no_duplicates(),
            forall|id: i32| #[trigger]
                others@.contains(id) <==> ids@.take(i as int).contains(id) && !set@.contains(id),
        decreases ids@.len() - i,
    {
        let id: i32 = ids[i];
        let ghost seen = ids@.take(i as int);
        let ghost now = others@;
        if !set.contains(&id) {
            others.push(id);
        }
        proof {
            let more = ids@.take(i + 1);
            assert(more[i as int] == id);
            assert(!seen.contains(id)) by {
                if seen.contains(id) {
                    let j = choose|j: int| 0 <= j < seen.len() && seen[j] == id;
                    assert(ids@[j] == id);
                }
            }
            assert forall|other: i32| #[trigger] others@.contains(other) <==> more.contains(other)
                && !set@.contains(other) by {
                assert(others@ == now || others@ == now.push(id));
                if seen.contains(other) {
                    let j = choose|j: int| 0 <= j < seen.len() && seen[j] == other;
                    assert(more[j] == other);
                }
                if more.contains(other) && other != id {
                    let j = choose|j: int| 0 <= j < more.len() && more[j] == other;
                    assert(seen[j] == other);
                }
                if now.contains(other) {
                    let j = choose|j: int| 0 <= j < now.len() && now[j] == other;
                    assert(others@[j] == other);
                }
                if others@.contains(other) && other != id {
                    let j = choose|j: int| 0 <= j < others@.len() && others@[j] == other;
                    assert(now[j] == other);
                }
                if !set@.contains(id) {
                    assert(others@.last() == id);
                }
            }
            assert(!now.contains(id));
        }
        i = i + 1;
    }
    assert(ids@.take(i as int) =~= ids@);
    assert(others@.to_set() =~= ids@.to_set().difference(set@));
    others
}

/// The set of listed numbers.
pub fn collect_ids(ids: &Vec<i32>) -> (set: FxHashSet<i32>)
    ensures
        set@ == ids@.to_set(),
{
    let _hasher = fx_hasher();
    let mut set: FxHashSet<i32> = FxHashSet::default();
    let mut i: usize = 0;
    assert(set@ =~= ids@.take(0).to_set());
    while i < ids.len()
        invariant
            i <= ids@.len(),
            crate::hashing::sound(_hasher),
            set@ == ids@.take(i as int).to_set(),
        decreases ids@.len() - i,
    {
        let ghost now = set@;
        set.insert(ids[i]);
        proof {
            let seen = ids@.take(i as int);
            let more = ids@.take(i + 1);
            assert(more =~= seen.push(ids@[i as int]));
            assert forall|id: i32| #[trigger] more.contains(id) <==> seen.contains(id) || id
                == ids@[i as int] by {
                if seen.contains(id) {
                    let j = choose|j: int| 0 <= j < seen.len() && seen[j] == id;
                    assert(more[j] == id);
                }
                assert(more[i as int] == ids@[i as int]);
            }
            assert(more.to_set() =~= now.insert(ids@[i as int]));
        }
        i = i + 1;
    }
    assert(ids@.take(i as int) =~= ids@);
    set
}

/// A player who may carry a map.
#[derive(Debug, Clone, Copy, PartialEq, Eq, Structural)]
pub struct HolderCandidate {
    pub uuid: u128,
    pub session: u64,
}

impl MapTrackingState {
    /// Drops a player's chunk requests for the listed maps.
    fn drop_requests(&mut self, ids: &Vec<i32>, uuid: u128)
        requires
            ids@.no_duplicates(),
        ensures
            final(self)@ == old(self)@.without_requests(ids@.to_set(), uuid),
    {
        let _hasher = fx_hasher();
        let ghost before = self@;
        let ghost change = |map: Followed| map.with_holder(uuid, with_request(None));
        let mut i: usize = 0;
        assert(self@.maps =~= with_changes(before.maps, ids@.take(0).to_set(), change));
        while i < ids.len()
            invariant
                i <= ids@.len(),
                ids@.no_duplicates(),
                crate::hashing::sound(_hasher),
                change == (|map: Followed| map.with_holder(uuid, with_request(None))),
                self@ == (Tracking {
                    maps: with_changes(before.maps, ids@.take(i as int).to_set(), change),
                    ..before
                }),
            decreases ids@.len() - i,
        {
            let ghost now = self@.maps;
            let id: i32 = ids[i];
            if let Some(mut map) = self.maps.remove(&id) {
                map.drop_request(uuid);
                self.maps.insert(id, map);
            }
            proof {
                assert(self@.maps =~= with_change(now, id, change));
                lemma_next_change(before.maps, ids@, i as int, change);
            }
            i = i + 1;
        }
        assert(ids@.take(i as int) =~= ids@);
    }

    /// Drops a player's chunk requests for all the maps that they carry.
    pub fn clear_terrain_requests(&mut self, uuid: u128)
        ensures
            final(self)@ == old(self)@.without_requests(old(self)@.maps_of(uuid), uuid),
            old(self)@.sound() ==> final(self)@.sound(),
    {
        let _hasher = fx_hasher();
        let listed = match self.player_maps.get(&uuid) {
            Some(ids) => list_ids(ids),
            None => {
                assert(self@.maps =~= self@.without_requests(Set::empty(), uuid).maps);
                return;
            },
        };
        self.drop_requests(&listed, uuid);
    }

    /// Drops a player's chunk requests for all maps but the given ones.
    pub fn retain_terrain_requests(&mut self, uuid: u128, requested: &FxHashSet<i32>)
        ensures
            final(self)@ == old(self)@.without_requests(
                old(self)@.maps.dom().difference(requested@),
                uuid,
            ),
            old(self)@.sound() ==> final(self)@.sound(),
    {
        let _hasher = fx_hasher();
        let ghost before = self@;
        let all = list_maps(&self.maps);
        let others = outside(&all, requested);
        assert(before.maps.dom() =~= self.maps@.dom());
        self.drop_requests(&others, uuid);
    }

    /// The players who may carry a map.
    pub fn holder_candidates(&self, id: i32) -> (candidates: Vec<HolderCandidate>)
        ensures
            candidates@ == candidates_of(self@, id),
    {
        let _hasher = fx_hasher();
        let mut candidates: Vec<HolderCandidate> = Vec::new();
        let map = match self.maps.get(&id) {
            Some(map) => map,
            None => {
                return candidates;
            },
        };
        assert(self@.maps[id] == map@);
        let mut i: usize = 0;
        while i < map.holders.len()
            invariant
                i <= map.holders@.len(),
                self@.maps.contains_key(id),
                self@.maps[id] == map@,
                candidates@ == candidates_of(self@, id).take(i as int),
            decreases map.holders@.len() - i,
        {
            let holder = &map.holders[i];
            let ghost now = candidates@;
            candidates.push(HolderCandidate { uuid: holder.uuid, session: holder.session });
            assert(map@.holders[i as int] == holder@);
            assert(candidates@ =~= candidates_of(self@, id).take(i + 1));
            i = i + 1;
        }
        assert(candidates@ =~= candidates_of(self@, id));
        candidates
    }

    /// Notes the chunks that a player's map has to be drawn from, and tells whether
    /// they have to be requested anew; nothing where the player does not carry it.
    pub fn request_terrain(&mut self, id: i32, uuid: u128, chunks: &Vec<ChunkPos>) -> (new: Option<
        bool,
    >)
        ensures
            final(self)@ == old(self)@.with_terrain(id, uuid, Some(chunks@)),
            old(self)@.sound() ==> final(self)@.sound(),
            match (new, old(self)@.holder(id, uuid)) {
                (Some(new), Some(holder)) => new == (holder.terrain != Some(chunks@)),
                (None, None) => true,
                _ => false,
            },
    {
        let _hasher = fx_hasher();
        let ghost before = self@;
        match self.maps.remove(&id) {
            Some(mut map) => {
                let new = map.request_terrain(uuid, chunks);
                self.maps.insert(id, map);
                assert(self@ =~= before.with_terrain(id, uuid, Some(chunks@)));
                new
            },
            None => {
                assert(self@ =~= before.with_terrain(id, uuid, Some(chunks@)));
                None
            },
        }
    }

    /// Advances the step in which a player's map is drawn, where its chunks are ready.
    pub fn advance_step(&mut self, id: i32, uuid: u128, ready: bool) -> (step: Option<i32>)
        ensures
            match old(self)@.holder(id, uuid) {
                Some(holder) => if ready && holder.terrain is Some {
                    step == Some(holder.step.wrapping_add(1)) && final(self)@ == old(
                        self,
                    )@.with_step(id, uuid)
                } else {
                    step is None && final(self)@ == old(self)@
                },
                None => step is None && final(self)@ == old(self)@,
            },
            old(self)@.sound() ==> final(self)@.sound(),
    {
        let _hasher = fx_hasher();
        let ghost before = self@;
        match self.maps.remove(&id) {
            Some(mut map) => {
                let step = map.finish_step(uuid, ready);
                let ghost now = map@;
                self.maps.insert(id, map);
                assert(self@.maps =~= before.maps.insert(id, now));
                assert(step is None ==> self@ =~= before);
                assert(step is Some ==> self@ =~= before.with_step(id, uuid));
                step
            },
            None => {
                assert(self@ =~= before);
                None
            },
        }
    }

    /// Notes for everyone who carries a map that its colors have changed.
    pub fn mark_colors_dirty(&mut self, id: i32, bounds: MapDirtyBounds)
        ensures
            final(self)@ == old(self)@.with_dirty(id, bounds),
            old(self)@.sound() && bounds.on_map() ==> final(self)@.sound(),
    {
        let _hasher = fx_hasher();
        let ghost before = self@;
        if let Some(mut map) = self.maps.remove(&id) {
            map.mark_colors_dirty(bounds);
            self.maps.insert(id, map);
        }
        assert(self@ =~= before.with_dirty(id, bounds));
    }
}

/// The players who may carry a map.
pub open spec fn candidates_of(tracking: Tracking, id: i32) -> Seq<HolderCandidate> {
    if tracking.maps.contains_key(id) {
        Seq::new(
            tracking.maps[id].holders.len(),
            |i: int|
                HolderCandidate {
                    uuid: tracking.maps[id].holders[i].uuid,
                    session: tracking.maps[id].holders[i].session,
                },
        )
    } else {
        Seq::empty()
    }
}

impl Tracking {
    /// A player as the holder of a map.
    pub open spec fn holder(self, id: i32, uuid: u128) -> Option<Holder> {
        if self.maps.contains_key(id) {
            self.maps[id].holder(uuid)
        } else {
            None
        }
    }

    /// After a player's chunk request for a map was noted.
    pub open spec fn with_terrain(self, id: i32, uuid: u128, request: Option<Seq<ChunkPos>>) -> Tracking {
        Tracking {
            maps: with_change(
                self.maps,
                id,
                |map: Followed| map.with_holder(uuid, with_request(request)),
            ),
            ..self
        }
    }

    /// After a player's map was drawn in one more step.
    pub open spec fn with_step(self, id: i32, uuid: u128) -> Tracking {
        Tracking {
            maps: with_change(
                self.maps,
                id,
                |map: Followed| map.with_holder(uuid, with_next_step()),
            ),
            ..self
        }
    }

    /// After a map's colors have changed.
    pub open spec fn with_dirty(self, id: i32, bounds: MapDirtyBounds) -> Tracking {
        Tracking {
            maps: with_change(self.maps, id, |map: Followed| map.with_dirty(bounds)),
            ..self
        }
    }
}

impl MapTrackingState {
    /// Adds a player to those who carry a map.
    fn join_map(&mut self, id: i32, player: &PlayerSession, carried: &Vec<CarriedMap>)
        ensures
            final(self)@ == (Tracking {
                maps: old(self)@.maps.insert(
                    id,
                    carried_by(
                        if old(self)@.maps.contains_key(id) {
                            old(self)@.maps[id]
                        } else {
                            unfollowed()
                        },
                        *player,
                        carried_maps(carried@),
                        id,
                    ),
                ),
                ..old(self)@
            }),
    {
        let _hasher = fx_hasher();
        let ghost before = self@;
        let mut map = match self.maps.remove(&id) {
            Some(map) => map,
            None => TrackedMap::new(),
        };
        let ghost first = map@;
        map.join(player);
        let ghost joined = map@;
        let ghost all = carried_maps(carried@);
        let mut i: usize = 0;
        assert(all.take(0) =~= Seq::empty());
        while i < carried.len()
            invariant
                i <= carried@.len(),
                all == carried_maps(carried@),
                map@ == (Followed {
                    entries: entries_on(joined.entries, all.take(i as int), id),
                    ..joined
                }),
            decreases carried@.len() - i,
        {
            assert(all.take(i + 1).drop_last() =~= all.take(i as int));
            assert(all.take(i + 1).last() == carried@[i as int]@);
            if carried[i].id == id {
                map.add_static_decorations(&carried[i].decorations);
            }
            i = i + 1;
        }
        assert(all.take(i as int) =~= all);
        let ghost put = map@;
        self.maps.insert(id, map);
        assert(self@.maps =~= before.maps.insert(id, put));
    }

    /// Notes which maps a player carries, listed once each.
    pub fn update_player(
        &mut self,
        player: &PlayerSession,
        carried: &Vec<CarriedMap>,
        valid_order: &Vec<i32>,
    )
        ensures
            final(self)@ == old(self)@.with_carried(
                *player,
                carried_maps(carried@),
                valid_order@,
            ),
            old(self)@.sound() ==> final(self)@.sound(),
    {
        let _hasher = fx_hasher();
        let ghost before = self@;
        let ghost change = |map: Followed| map.without_holder(player.uuid);
        let ghost all = carried_maps(carried@);
        let uuid: u128 = player.uuid;
        let current = collect_ids(valid_order);
        let previous = match self.player_maps.get(&uuid) {
            Some(ids) => list_ids(ids),
            None => Vec::new(),
        };
        assert(previous@.to_set() =~= before.maps_of(uuid));
        let gone = outside(&previous, &current);
        self.drop_from_maps(&gone, uuid);
        let ghost left = self@.maps;
        let mut i: usize = 0;
        assert(valid_order@.take(0) =~= Seq::empty());
        while i < valid_order.len()
            invariant
                i <= valid_order@.len(),
                all == carried_maps(carried@),
                self@ == (Tracking {
                    maps: with_player(left, *player, all, valid_order@.take(i as int)),
                    ..before
                }),
            decreases valid_order@.len() - i,
        {
            assert(valid_order@.take(i + 1).drop_last() =~= valid_order@.take(i as int));
            assert(valid_order@.take(i + 1).last() == valid_order@[i as int]);
            self.join_map(valid_order[i], player, carried);
            i = i + 1;
        }
        assert(valid_order@.take(i as int) =~= valid_order@);
        let ghost maps = self@.maps;
        if valid_order.len() == 0 {
            self.player_maps.remove(&uuid);
        } else {
            self.player_maps.insert(uuid, current);
        }
        assert(self@.maps =~= maps);
        assert(self@.players =~= before.with_carried(*player, all, valid_order@).players);
        proof {
            if before.sound() {
                law_tracking_stays_sound(
                    before,
                    *player,
                    all,
                    valid_order@,
                    Set::empty(),
                    0,
                    uuid,
                    None,
                    MapDirtyBounds { min_x: 0, min_y: 0, max_x: 0, max_y: 0 },
                );
            }
        }
    }
}

proof fn lemma_dropping_keeps_soundness(map: Followed, uuid: u128)
    requires
        map.sound(),
    ensures
        map.without_holder(uuid).sound(),
{
    let place = holder_place(map.holders, uuid);
    if 0 <= place < map.holders.len() {
        let left = map.without_holder(uuid);
        assert forall|i: int| 0 <= i < left.holders.len() implies (
        #[trigger] left.holders[i]).sound() by {
            if i < place {
                assert(left.holders[i] == map.holders[i]);
            } else {
                assert(left.holders[i] == map.holders[i + 1]);
            }
        }
    }
}

proof fn lemma_change_keeps_soundness(
    map: Followed,
    uuid: u128,
    change: spec_fn(Holder) -> Holder,
)
    requires
        map.sound(),
        forall|holder: Holder| holder.sound() ==> (#[trigger] change(holder)).sound(),
    ensures
        map.with_holder(uuid, change).sound(),
{
    let place = holder_place(map.holders, uuid);
    if 0 <= place < map.holders.len() {
        let after = map.with_holder(uuid, change);
        assert(map.holders[place].sound());
        assert forall|i: int| 0 <= i < after.holders.len() implies (
        #[trigger] after.holders[i]).sound() by {
            if i != place {
                assert(after.holders[i] == map.holders[i]);
            }
        }
    }
}

proof fn lemma_changes_keep_soundness(
    maps: Map<i32, Followed>,
    ids: Set<i32>,
    change: spec_fn(Followed) -> Followed,
)
    requires
        forall|id: i32| #[trigger] maps.contains_key(id) ==> maps[id].sound(),
        forall|map: Followed| map.sound() ==> (#[trigger] change(map)).sound(),
    ensures
        forall|id: i32| #[trigger]
            with_changes(maps, ids, change).contains_key(id) ==> with_changes(
                maps,
                ids,
                change,
            )[id].sound(),
{
    assert forall|id: i32| #[trigger]
        with_changes(maps, ids, change).contains_key(id) implies with_changes(
        maps,
        ids,
        change,
    )[id].sound() by {
        assert(maps.contains_key(id));
    }
}

proof fn lemma_joining_keeps_soundness(
    maps: Map<i32, Followed>,
    player: PlayerSession,
    carried: Seq<Carried>,
    ids: Seq<i32>,
)
    requires
        forall|id: i32| #[trigger] maps.contains_key(id) ==> maps[id].sound(),
    ensures
        forall|id: i32| #[trigger]
            with_player(maps, player, carried, ids).contains_key(id) ==> with_player(
                maps,
                player,
                carried,
                ids,
            )[id].sound(),
    decreases ids.len(),
{
    if ids.len() > 0 {
        lemma_joining_keeps_soundness(maps, player, carried, ids.drop_last());
        let before = with_player(maps, player, carried, ids.drop_last());
        let id = ids.last();
        let first = if before.contains_key(id) {
            before[id]
        } else {
            unfollowed()
        };
        assert(first.sound());
        let joined = first.joined(player);
        assert forall|i: int| 0 <= i < joined.holders.len() implies (
        #[trigger] joined.holders[i]).sound() by {
            if i < first.holders.len() {
                assert(first.holders[i].sound());
            }
        }
        assert(carried_by(first, player, carried, id).sound());
    }
}

/// What has yet to be sent stays on the maps, whatever is noted of those who carry
/// them.
pub proof fn law_tracking_stays_sound(
    tracking: Tracking,
    player: PlayerSession,
    carried: Seq<Carried>,
    order: Seq<i32>,
    ids: Set<i32>,
    id: i32,
    uuid: u128,
    request: Option<Seq<ChunkPos>>,
    bounds: MapDirtyBounds,
)
    requires
        tracking.sound(),
        bounds.on_map(),
    ensures
        tracking.without_player(uuid).sound(),
        tracking.without_holder(id, uuid).sound(),
        tracking.without_requests(ids, uuid).sound(),
        tracking.with_terrain(id, uuid, request).sound(),
        tracking.with_step(id, uuid).sound(),
        tracking.with_dirty(id, bounds).sound(),
        tracking.with_carried(player, carried, order).sound(),
{
    let dropping = |map: Followed| map.without_holder(uuid);
    assert forall|map: Followed| map.sound() implies (#[trigger] dropping(map)).sound() by {
        lemma_dropping_keeps_soundness(map, uuid);
    }
    lemma_changes_keep_soundness(tracking.maps, tracking.maps_of(uuid), dropping);
    assert(tracking.without_holder(id, uuid).sound());
    let leaving = |map: Followed| map.without_holder(player.uuid);
    assert forall|map: Followed| map.sound() implies (#[trigger] leaving(map)).sound() by {
        lemma_dropping_keeps_soundness(map, player.uuid);
    }
    let gone = tracking.maps_of(player.uuid).difference(order.to_set());
    lemma_changes_keep_soundness(tracking.maps, gone, leaving);
    lemma_joining_keeps_soundness(
        with_changes(tracking.maps, gone, leaving),
        player,
        carried,
        order,
    );
    let forgetting = |map: Followed| map.with_holder(uuid, with_request(None));
    assert forall|map: Followed| map.sound() implies (#[trigger] forgetting(map)).sound() by {
        lemma_change_keeps_soundness(map, uuid, with_request(None));
    }
    lemma_changes_keep_soundness(tracking.maps, ids, forgetting);
    if tracking.maps.contains_key(id) {
        let map = tracking.maps[id];
        lemma_change_keeps_soundness(map, uuid, with_request(request));
        lemma_change_keeps_soundness(map, uuid, with_next_step());
        let marked = map.with_dirty(bounds);
        assert forall|i: int| 0 <= i < marked.holders.len() implies (
        #[trigger] marked.holders[i]).sound() by {
            assert(map.holders[i].sound());
            if let Some(dirty) = map.holders[i].dirty {
                law_merged_bounds_cover_both(dirty, bounds);
            }
        }
    }
}

proof fn lemma_with_player(
    maps: Map<i32, Followed>,
    player: PlayerSession,
    carried: Seq<Carried>,
    ids: Seq<i32>,
    id: i32,
)
    ensures
        ({
            let after = with_player(maps, player, carried, ids);
            &&& ids.contains(id) ==> after.contains_key(id) && after[id].holder(player.uuid) is Some
            &&& !ids.contains(id) ==> (after.contains_key(id) <==> maps.contains_key(id)) && (
            maps.contains_key(id) ==> after[id] == maps[id])
        }),
    decreases ids.len(),
{
    if ids.len() > 0 {
        let earlier = ids.drop_last();
        lemma_with_player(maps, player, carried, earlier, id);
        let before = with_player(maps, player, carried, earlier);
        let last = ids.last();
        assert(ids[ids.len() - 1] == last);
        lemma_joined_and_left(
            if before.contains_key(last) {
                before[last]
            } else {
                unfollowed()
            },
            player,
        );
        if ids.contains(id) && id != last {
            let k = choose|k: int| 0 <= k < ids.len() && ids[k] == id;
            assert(earlier[k] == id);
        }
        if earlier.contains(id) {
            let k = choose|k: int| 0 <= k < earlier.len() && earlier[k] == id;
            assert(ids[k] == id);
        }
    }
}

/// After it was seen which maps a player carries, they are a holder of each of those,
/// and no more of one that they carried before; what others hold stays.
pub proof fn law_player_holds_what_they_carry(
    tracking: Tracking,
    player: PlayerSession,
    carried: Seq<Carried>,
    ids: Seq<i32>,
    id: i32,
)
    requires
        tracking.maps.contains_key(id) ==> forall|i: int, j: int|
            0 <= i < j < tracking.maps[id].holders.len() ==> (
            #[trigger] tracking.maps[id].holders[i]).uuid != (
            #[trigger] tracking.maps[id].holders[j]).uuid,
    ensures
        ({
            let after = tracking.with_carried(player, carried, ids);
            &&& ids.contains(id) ==> after.holder(id, player.uuid) is Some
            &&& !ids.contains(id) && tracking.maps_of(player.uuid).contains(id) ==> after.holder(
                id,
                player.uuid,
            ) is None
            &&& !ids.contains(id) && !tracking.maps_of(player.uuid).contains(id) ==> (
            after.maps.contains_key(id) <==> tracking.maps.contains_key(id)) && (
            tracking.maps.contains_key(id) ==> after.maps[id] == tracking.maps[id])
            &&& after.maps_of(player.uuid).contains(id) <==> ids.contains(id)
            &&& forall|uuid: u128|
                uuid != player.uuid ==> #[trigger] after.maps_of(uuid) == tracking.maps_of(uuid)
        }),
{
    let gone = tracking.maps_of(player.uuid).difference(ids.to_set());
    let left = with_changes(
        tracking.maps,
        gone,
        |map: Followed| map.without_holder(player.uuid),
    );
    lemma_with_player(left, player, carried, ids, id);
    if tracking.maps.contains_key(id) {
        lemma_joined_and_left(tracking.maps[id], player);
    }
    assert(ids.to_set().contains(id) <==> ids.contains(id));
}

} // verus!
