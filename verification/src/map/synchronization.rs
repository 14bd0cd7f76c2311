//! Bringing the maps that a player carries up to date, from what is carried to the
//! packets.
use vstd::prelude::*;

use crate::ident::{Id, Identifier};
use crate::item_stack::stacks_of;
use crate::keyed::Tag;
use crate::map::packet::{CMapItemData, Icon, MapUpdate};
use crate::map::player_sync::{
    advanced, all_snapshots, checked, drawable, drawn_maps, first_ones, fits, noted_requests,
    planned_chunks, refreshed, seen_carried, seen_held, steps_fit, terrain_requests, updates_of,
    valid_slots, with_all_dirty, without_stale, HeldMap, HeldStep, MapDataStore, MapStore,
    TerrainRequest,
};
use crate::map::store::Maps;
use crate::map::synchronize::{candidates_of, HolderCandidate, Tracking};
use crate::map::terrain::{ChunkPos, TerrainSample};
use crate::map::tracking::{
    captured, carried_maps, carries, consistent, snapshots_of, Carried, CarriedMap, HolderSnapshot,
    MapPoint, PlayerFacts, PlayerSession, Snapshot,
};

verus! {

/// A player whose maps are brought up to date: what they carry and hold, and where
/// they are.
pub ghost struct Situation {
    pub player: PlayerSession,
    pub carried: Seq<Carried>,
    pub held: Seq<HeldMap>,
    pub world: Id,
    pub has_ceiling: bool,
    pub in_domain: bool,
    pub tags: Seq<Tag>,
}

impl Situation {
    /// The numbers of the carried maps that exist, slot by slot.
    pub open spec fn slots(self, store: MapStore) -> Seq<i32> {
        valid_slots(store.maps.maps, self.carried)
    }

    /// The numbers of the carried maps that exist, once each.
    pub open spec fn order(self, store: MapStore) -> Seq<i32> {
        first_ones(self.slots(store))
    }

    /// Who carries which maps, after it was seen what the player carries.
    pub open spec fn seen(self, store: MapStore) -> Tracking {
        seen_carried(store, self.player, self.carried)
    }

    /// Who carries which maps, after the chunks of the held maps were noted, and the
    /// requests for them.
    pub open spec fn noted(self, store: MapStore) -> (Tracking, Seq<(i32, Seq<ChunkPos>, bool)>) {
        let chunks = planned_chunks(
            store.maps,
            self.world,
            self.has_ceiling,
            self.in_domain,
            self.held,
        );
        noted_requests(
            seen_held(self.seen(store), self.player.uuid, chunks),
            self.player.uuid,
            self.held,
            chunks,
        )
    }
}

/// Requests with whether their chunks are there.
pub open spec fn answered(requests: Seq<(i32, Seq<ChunkPos>, bool)>, ready: Seq<bool>) -> Seq<
    (i32, bool),
> {
    Seq::new(requests.len(), |i: int| (requests[i].0, ready[i]))
}

/// The place of the first held map of a number, or the number of held maps.
pub open spec fn held_place(held: Seq<HeldMap>, id: i32) -> int
    decreases held.len(),
{
    if held.len() == 0 || held[0].id == id {
        0
    } else {
        1 + held_place(held.drop_first(), id)
    }
}

/// The steps in which held maps are drawn.
pub open spec fn steps_of(steps: Seq<(i32, i32)>, held: Seq<HeldMap>) -> Seq<HeldStep>
    decreases steps.len(),
{
    if steps.len() == 0 {
        Seq::empty()
    } else {
        let before = steps_of(steps.drop_last(), held);
        let place = held_place(held, steps.last().0);
        if place < held.len() {
            before.push(HeldStep { held: held[place], step: steps.last().1 })
        } else {
            before
        }
    }
}

/// What is known of a player who may carry a map.
pub open spec fn seen_snapshot(
    candidate: HolderCandidate,
    facts: Option<PlayerFacts>,
    id: i32,
    tags: Seq<Tag>,
) -> Option<Snapshot> {
    match facts {
        Some(facts) => captured(candidate.uuid, facts, id, tags),
        None => None,
    }
}

/// The players who do carry a map.
pub open spec fn present(
    candidates: Seq<HolderCandidate>,
    facts: Seq<Option<PlayerFacts>>,
    id: i32,
    tags: Seq<Tag>,
) -> Seq<Snapshot>
    decreases candidates.len(),
{
    if candidates.len() == 0 {
        Seq::empty()
    } else {
        let before = present(candidates.drop_last(), facts, id, tags);
        match seen_snapshot(candidates.last(), facts[candidates.len() - 1], id, tags) {
            Some(snapshot) => before.push(snapshot),
            None => before,
        }
    }
}

/// The players who carry a map no more.
pub open spec fn absent(
    candidates: Seq<HolderCandidate>,
    facts: Seq<Option<PlayerFacts>>,
    id: i32,
    tags: Seq<Tag>,
) -> Seq<(i32, u128)>
    decreases candidates.len(),
{
    if candidates.len() == 0 {
        Seq::empty()
    } else {
        let before = absent(candidates.drop_last(), facts, id, tags);
        match seen_snapshot(candidates.last(), facts[candidates.len() - 1], id, tags) {
            Some(_) => before,
            None => before.push((id, candidates.last().uuid)),
        }
    }
}

/// The players who do carry each of several maps.
pub open spec fn all_present(
    tracking: Tracking,
    order: Seq<i32>,
    facts: Seq<Seq<Option<PlayerFacts>>>,
    tags: Seq<Tag>,
) -> Seq<Seq<Snapshot>> {
    Seq::new(
        order.len(),
        |i: int| present(candidates_of(tracking, order[i]), facts[i], order[i], tags),
    )
}

/// The players who carry several maps no more.
pub open spec fn all_absent(
    tracking: Tracking,
    order: Seq<i32>,
    facts: Seq<Seq<Option<PlayerFacts>>>,
    tags: Seq<Tag>,
) -> Seq<(i32, u128)>
    decreases order.len(),
{
    if order.len() == 0 {
        Seq::empty()
    } else {
        all_absent(tracking, order.drop_last(), facts, tags) + absent(
            candidates_of(tracking, order.last()),
            facts[order.len() - 1],
            order.last(),
            tags,
        )
    }
}

/// A store after the maps that a player holds were drawn.
pub open spec fn after_drawing<S: Fn(i32, i32, i32) -> Option<TerrainSample>>(
    store: MapStore,
    situation: Situation,
    ready: Seq<bool>,
    sample: S,
) -> MapStore {
    let (noted, requests) = situation.noted(store);
    let (stepped, steps) = advanced(noted, situation.player.uuid, answered(requests, ready));
    let (maps, changed) = drawn_maps(
        store.maps.maps,
        situation.world,
        situation.has_ceiling,
        steps_of(steps, situation.held),
        sample,
    );
    MapStore {
        maps: Maps {
            maps,
            revision: if changed.len() == 0 {
                store.maps.revision
            } else {
                store.maps.revision.wrapping_add(1)
            },
            ..store.maps
        },
        tracking: with_all_dirty(stepped, changed),
    }
}

/// Who carries which maps, after the maps that a player holds were drawn and the icons
/// of the carried ones were brought up to date, and the icons of each of them.
pub open spec fn after_showing<
    S: Fn(i32, i32, i32) -> Option<TerrainSample>,
    F: Fn(i32, i32, i8, u64, u64, u32) -> MapPoint,
>(
    store: MapStore,
    situation: Situation,
    ready: Seq<bool>,
    facts: Seq<Seq<Option<PlayerFacts>>>,
    sample: S,
    place: F,
) -> (Tracking, Seq<(i32, Seq<Icon>)>) {
    let drawn = after_drawing(store, situation, ready, sample);
    let order = situation.order(store);
    let seen = situation.seen(store);
    refreshed(
        without_stale(drawn.tracking, all_absent(seen, order, facts, situation.tags)),
        drawn.maps.maps,
        situation.player.uuid,
        order,
        all_present(seen, order, facts, situation.tags),
        place,
    )
}

/// A store after the maps that a player carries were brought up to date, and the
/// updates for the player. `ready` tells of each request whether its chunks are there,
/// `facts` what is known of each player who may carry one of the maps.
pub open spec fn synchronized<
    S: Fn(i32, i32, i32) -> Option<TerrainSample>,
    F: Fn(i32, i32, i8, u64, u64, u32) -> MapPoint,
>(
    store: MapStore,
    situation: Situation,
    ready: Seq<bool>,
    facts: Seq<Seq<Option<PlayerFacts>>>,
    sample: S,
    place: F,
) -> (MapStore, Seq<MapUpdate>) {
    let drawn = after_drawing(store, situation, ready, sample);
    let (shown, icons) = after_showing(store, situation, ready, facts, sample, place);
    let (tracking, updates) = checked(
        shown,
        drawn.maps.maps,
        situation.player.uuid,
        situation.slots(store),
        icons,
    );
    (MapStore { tracking, ..drawn }, updates)
}

/// The answers to requests for chunks.
pub open spec fn asked<R: Fn(&TerrainRequest) -> bool>(
    request: R,
    requests: Seq<TerrainRequest>,
    ready: Seq<bool>,
) -> bool {
    &&& ready.len() == requests.len()
    &&& forall|i: int|
        0 <= i < requests.len() ==> request.ensures((&requests[i],), #[trigger] ready[i])
}

/// What is known of players who may carry one map.
pub open spec fn told<K: Fn(u128, u64) -> Option<PlayerFacts>>(
    known: K,
    candidates: Seq<HolderCandidate>,
    facts: Seq<Option<PlayerFacts>>,
) -> bool {
    &&& facts.len() == candidates.len()
    &&& forall|i: int|
        0 <= i < candidates.len() ==> known.ensures(
            (candidates[i].uuid, candidates[i].session),
            #[trigger] facts[i],
        )
}

/// What is known of the players who may carry each of several maps.
pub open spec fn all_told<K: Fn(u128, u64) -> Option<PlayerFacts>>(
    known: K,
    tracking: Tracking,
    order: Seq<i32>,
    facts: Seq<Seq<Option<PlayerFacts>>>,
) -> bool {
    &&& facts.len() == order.len()
    &&& forall|i: int|
        0 <= i < order.len() ==> told(
            known,
            candidates_of(tracking, order[i]),
            #[trigger] facts[i],
        )
}

/// A call brings the maps that a player carries up to date: with one of the answers
/// about the chunks and about the other players, it leaves the store and yields the
/// updates that are due.
pub open spec fn synchronizes<
    R: Fn(&TerrainRequest) -> bool,
    S: Fn(i32, i32, i32) -> Option<TerrainSample>,
    K: Fn(u128, u64) -> Option<PlayerFacts>,
    F: Fn(i32, i32, i8, u64, u64, u32) -> MapPoint,
>(
    before: MapStore,
    after: MapStore,
    updates: Seq<MapUpdate>,
    situation: Situation,
    request: R,
    sample: S,
    known: K,
    place: F,
) -> bool {
    exists|
        requests: Seq<TerrainRequest>,
        ready: Seq<bool>,
        facts: Seq<Seq<Option<PlayerFacts>>>,
    |
        {
            &&& #[trigger] asked(request, requests, ready)
            &&& terrain_requests(requests) == situation.noted(before).1
            &&& #[trigger] all_told(known, situation.seen(before), situation.order(before), facts)
            &&& (after, updates) == synchronized(before, situation, ready, facts, sample, place)
        }
}

/// Asks for the chunks of requests.
fn ask<R: Fn(&TerrainRequest) -> bool>(request: &R, requests: &Vec<TerrainRequest>) -> (result: (
    Vec<(i32, bool)>,
    Ghost<Seq<bool>>,
))
    requires
        forall|wanted: &TerrainRequest| #[trigger] request.requires((wanted,)),
    ensures
        asked(*request, requests@, result.1@),
        result.0@ == answered(terrain_requests(requests@), result.1@),
{
    let mut answers: Vec<(i32, bool)> = Vec::new();
    let ghost mut ready: Seq<bool> = Seq::empty();
    let mut i: usize = 0;
    while i < requests.len()
        invariant
            i <= requests@.len(),
            forall|wanted: &TerrainRequest| #[trigger] request.requires((wanted,)),
            ready.len() == i,
            answers@.len() == i,
            forall|j: int|
                0 <= j < i ==> request.ensures((&requests@[j],), #[trigger] ready[j]),
            forall|j: int|
                0 <= j < i ==> #[trigger] answers@[j] == (requests@[j].id, ready[j]),
        decreases requests@.len() - i,
    {
        let wanted = &requests[i];
        let is_ready = request(wanted);
        proof {
            ready = ready.push(is_ready);
        }
        answers.push((wanted.id, is_ready));
        i = i + 1;
    }
    assert(answers@ =~= answered(terrain_requests(requests@), ready));
    (answers, Ghost(ready))
}

fn find_held(held: &Vec<HeldMap>, id: i32) -> (place: Option<usize>)
    ensures
        match place {
            Some(place) => place < held@.len() && place == held_place(held@, id),
            None => held_place(held@, id) == held@.len(),
        },
{
    let mut i: usize = 0;
    assert(held@.skip(0) =~= held@);
    while i < held.len()
        invariant
            i <= held@.len(),
            held_place(held@, id) == i + held_place(held@.skip(i as int), id),
        decreases held@.len() - i,
    {
        assert(held@.skip(i as int).drop_first() =~= held@.skip(i + 1));
        if held[i].id == id {
            return Some(i);
        }
        i = i + 1;
    }
    None
}

/// Finds the held maps of steps.
fn join_steps(steps: &Vec<(i32, i32)>, held: &Vec<HeldMap>) -> (joined: Vec<HeldStep>)
    requires
        fits(held@),
    ensures
        joined@ == steps_of(steps@, held@),
        steps_fit(joined@),
{
    let mut joined: Vec<HeldStep> = Vec::new();
    let mut i: usize = 0;
    assert(steps@.take(0) =~= Seq::empty());
    while i < steps.len()
        invariant
            i <= steps@.len(),
            fits(held@),
            joined@ == steps_of(steps@.take(i as int), held@),
            steps_fit(joined@),
        decreases steps@.len() - i,
    {
        assert(steps@.take(i + 1).drop_last() =~= steps@.take(i as int));
        let (id, step) = steps[i];
        assert(steps@.take(i + 1).last() == (id, step));
        if let Some(place) = find_held(held, id) {
            joined.push(HeldStep { held: held[place], step });
        }
        i = i + 1;
    }
    assert(steps@.take(i as int) =~= steps@);
    joined
}

/// Sorts the players who may carry a map: into those who do, and those who do not.
fn sort_out<K: Fn(u128, u64) -> Option<PlayerFacts>>(
    known: &K,
    candidates: &Vec<HolderCandidate>,
    id: i32,
    item_tags: &Vec<Tag>,
    stale: &mut Vec<(i32, u128)>,
) -> (result: (Vec<HolderSnapshot>, Ghost<Seq<Option<PlayerFacts>>>))
    requires
        forall|uuid: u128, session: u64| #[trigger] known.requires((uuid, session)),
    ensures
        told(*known, candidates@, result.1@),
        snapshots_of(result.0@) == present(candidates@, result.1@, id, item_tags@),
        final(stale)@ == old(stale)@ + absent(candidates@, result.1@, id, item_tags@),
{
    let mut available: Vec<HolderSnapshot> = Vec::new();
    let ghost mut facts: Seq<Option<PlayerFacts>> = Seq::empty();
    let ghost before = stale@;
    let mut i: usize = 0;
    assert(candidates@.take(0) =~= Seq::empty());
    assert(snapshots_of(available@) =~= Seq::empty());
    assert(stale@ =~= before + absent(candidates@.take(0), facts, id, item_tags@));
    while i < candidates.len()
        invariant
            i <= candidates@.len(),
            forall|uuid: u128, session: u64| #[trigger] known.requires((uuid, session)),
            told(*known, candidates@.take(i as int), facts),
            snapshots_of(available@) == present(
                candidates@.take(i as int),
                facts,
                id,
                item_tags@,
            ),
            stale@ == before + absent(candidates@.take(i as int), facts, id, item_tags@),
        decreases candidates@.len() - i,
    {
        let ghost earlier = candidates@.take(i as int);
        let ghost now = candidates@.take(i + 1);
        assert(now.drop_last() =~= earlier);
        let candidate = candidates[i];
        assert(now.last() == candidate);
        let player = known(candidate.uuid, candidate.session);
        let ghost more = facts.push(player);
        proof {
            lemma_more_facts(earlier, facts, player, id, item_tags@);
        }
        let ghost sorted = snapshots_of(available@);
        let ghost left = stale@;
        match HolderSnapshot::capture(candidate.uuid, player.as_ref(), id, item_tags) {
            Some(snapshot) => {
                let ghost added = snapshot@;
                available.push(snapshot);
                assert(snapshots_of(available@) =~= sorted.push(added));
                assert(stale@ == before + absent(now, more, id, item_tags@));
            },
            None => {
                stale.push((id, candidate.uuid));
                assert(stale@ =~= before + absent(now, more, id, item_tags@));
            },
        }
        proof {
            facts = more;
        }
        i = i + 1;
    }
    assert(candidates@.take(i as int) =~= candidates@);
    (available, Ghost(facts))
}

/// What is known of another player does not matter for the players before.
proof fn lemma_more_facts(
    candidates: Seq<HolderCandidate>,
    facts: Seq<Option<PlayerFacts>>,
    another: Option<PlayerFacts>,
    id: i32,
    tags: Seq<Tag>,
)
    requires
        candidates.len() <= facts.len(),
    ensures
        present(candidates, facts.push(another), id, tags) == present(candidates, facts, id, tags),
        absent(candidates, facts.push(another), id, tags) == absent(candidates, facts, id, tags),
    decreases candidates.len(),
{
    if candidates.len() > 0 {
        lemma_more_facts(candidates.drop_last(), facts, another, id, tags);
    }
}

/// What is known of the players of another map does not matter for the maps before.
proof fn lemma_more_maps(
    tracking: Tracking,
    order: Seq<i32>,
    facts: Seq<Seq<Option<PlayerFacts>>>,
    another: Seq<Option<PlayerFacts>>,
    tags: Seq<Tag>,
)
    requires
        order.len() <= facts.len(),
    ensures
        all_absent(tracking, order, facts.push(another), tags) == all_absent(
            tracking,
            order,
            facts,
            tags,
        ),
    decreases order.len(),
{
    if order.len() > 0 {
        lemma_more_maps(tracking, order.drop_last(), facts, another, tags);
    }
}

/// Sorts the players who may carry each of several maps.
fn sort_out_all<K: Fn(u128, u64) -> Option<PlayerFacts>>(
    known: &K,
    order: &Vec<i32>,
    candidates: &Vec<Vec<HolderCandidate>>,
    item_tags: &Vec<Tag>,
    Ghost(tracking): Ghost<Tracking>,
) -> (result: (Vec<Vec<HolderSnapshot>>, Vec<(i32, u128)>, Ghost<Seq<Seq<Option<PlayerFacts>>>>))
    requires
        forall|uuid: u128, session: u64| #[trigger] known.requires((uuid, session)),
        candidates@.len() == order@.len(),
        forall|i: int|
            0 <= i < order@.len() ==> (#[trigger] candidates@[i])@ == candidates_of(
                tracking,
                order@[i],
            ),
    ensures
        all_told(*known, tracking, order@, result.2@),
        all_snapshots(result.0@) == all_present(tracking, order@, result.2@, item_tags@),
        result.0@.len() == order@.len(),
        result.1@ == all_absent(tracking, order@, result.2@, item_tags@),
{
    let mut snapshots: Vec<Vec<HolderSnapshot>> = Vec::new();
    let mut stale: Vec<(i32, u128)> = Vec::new();
    let ghost mut facts: Seq<Seq<Option<PlayerFacts>>> = Seq::empty();
    let mut i: usize = 0;
    assert(order@.take(0) =~= Seq::empty());
    while i < order.len()
        invariant
            i <= order@.len() == candidates@.len(),
            forall|uuid: u128, session: u64| #[trigger] known.requires((uuid, session)),
            forall|i: int|
                0 <= i < order@.len() ==> (#[trigger] candidates@[i])@ == candidates_of(
                    tracking,
                    order@[i],
                ),
            facts.len() == i,
            snapshots@.len() == i,
            forall|j: int|
                0 <= j < i ==> told(
                    *known,
                    candidates_of(tracking, order@[j]),
                    #[trigger] facts[j],
                ),
            forall|j: int|
                0 <= j < i ==> snapshots_of((#[trigger] snapshots@[j])@) == present(
                    candidates_of(tracking, order@[j]),
                    facts[j],
                    order@[j],
                    item_tags@,
                ),
            stale@ == all_absent(tracking, order@.take(i as int), facts, item_tags@),
        decreases order@.len() - i,
    {
        let ghost earlier = order@.take(i as int);
        let ghost now = order@.take(i + 1);
        assert(now.drop_last() =~= earlier);
        assert(now.last() == order@[i as int]);
        let (available, Ghost(seen)) = sort_out(
            known,
            &candidates[i],
            order[i],
            item_tags,
            &mut stale,
        );
        proof {
            lemma_more_maps(tracking, earlier, facts, seen, item_tags@);
            facts = facts.push(seen);
        }
        snapshots.push(available);
        i = i + 1;
    }
    assert(order@.take(i as int) =~= order@);
    assert(all_snapshots(snapshots@) =~= all_present(tracking, order@, facts, item_tags@));
    (snapshots, stale, Ghost(facts))
}

impl MapDataStore {
    /// Brings the maps that a player carries up to date, and yields the packets for
    /// the player: notes what they carry, draws the held maps whose chunks are there,
    /// and shows who else carries the maps.
    ///
    /// `request` asks for chunks and tells whether they are there, `sample` samples
    /// the area of a pixel, `known` tells what is known of a player's session, and
    /// `place` where a position lies on a map with a given center and scale.
    pub fn synchronize_player<
        R: Fn(&TerrainRequest) -> bool,
        S: Fn(i32, i32, i32) -> Option<TerrainSample>,
        K: Fn(u128, u64) -> Option<PlayerFacts>,
        F: Fn(i32, i32, i8, u64, u64, u32) -> MapPoint,
    >(
        &mut self,
        player: &PlayerSession,
        carried: &Vec<CarriedMap>,
        held: &Vec<HeldMap>,
        world: &Identifier,
        has_ceiling: bool,
        in_domain: bool,
        item_tags: &Vec<Tag>,
        request: &R,
        sample: &S,
        known: &K,
        place: &F,
    ) -> (packets: Vec<CMapItemData>)
        requires
            fits(held@),
            drawable(old(self)@.maps),
            old(self)@.tracking.sound(),
            forall|wanted: &TerrainRequest| #[trigger] request.requires((wanted,)),
            crate::map::terrain::consistent(*sample),
            forall|uuid: u128, session: u64| #[trigger] known.requires((uuid, session)),
            consistent(*place),
        ensures
            drawable(final(self)@.maps),
            final(self)@.tracking.sound(),
            ({
                let situation = Situation {
                    player: *player,
                    carried: carried_maps(carried@),
                    held: held@,
                    world: world@,
                    has_ceiling,
                    in_domain,
                    tags: item_tags@,
                };
                synchronizes(
                    old(self)@,
                    final(self)@,
                    updates_of(packets@),
                    situation,
                    *request,
                    *sample,
                    *known,
                    *place,
                )
            }),
    {
        let ghost before = self@;
        let ghost situation = Situation {
            player: *player,
            carried: carried_maps(carried@),
            held: held@,
            world: world@,
            has_ceiling,
            in_domain,
            tags: item_tags@,
        };
        let plan = self.begin_synchronize_player(
            player,
            carried,
            held,
            world,
            has_ceiling,
            in_domain,
        );
        let (answers, Ghost(ready)) = ask(request, &plan.requests);
        let steps = self.tracking.advance_steps(player.uuid, &answers);
        let joined = join_steps(&steps, held);
        self.update_held_maps(world, has_ceiling, &joined, sample);
        assert(self@ == after_drawing(before, situation, ready, *sample));
        let (snapshots, stale, Ghost(facts)) = sort_out_all(
            known,
            &plan.order,
            &plan.candidates,
            item_tags,
            Ghost(situation.seen(before)),
        );
        let packets = self.finish_synchronize_player(
            player.uuid,
            &plan.valid_slots,
            &plan.order,
            &snapshots,
            &stale,
            place,
        );
        assert(asked(*request, plan.requests@, ready));
        assert(all_told(*known, situation.seen(before), situation.order(before), facts));
        assert((self@, updates_of(packets@)) == synchronized(
            before,
            situation,
            ready,
            facts,
            *sample,
            *place,
        ));
        packets
    }
}

/// Each player who was among the holders of a map is either still one, with what is
/// known of them, or is one no more: nobody is both, and nobody is left out.
pub proof fn law_holder_is_present_or_absent(
    candidates: Seq<HolderCandidate>,
    facts: Seq<Option<PlayerFacts>>,
    id: i32,
    tags: Seq<Tag>,
    i: int,
)
    requires
        0 <= i < candidates.len() <= facts.len(),
        forall|a: int, b: int|
            0 <= a < b < candidates.len() ==> (#[trigger] candidates[a]).uuid != (
            #[trigger] candidates[b]).uuid,
    ensures
        ({
            let here = present(candidates, facts, id, tags);
            let gone = absent(candidates, facts, id, tags);
            let carries_on = facts[i] matches Some(known) && !known.removed && known.in_domain
                && carries(stacks_of(known.items@), id);
            &&& here.len() + gone.len() == candidates.len()
            &&& carries_on <==> exists|k: int|
                0 <= k < here.len() && (#[trigger] here[k]).uuid == candidates[i].uuid
            &&& !carries_on <==> gone.contains((id, candidates[i].uuid))
        }),
    decreases candidates.len(),
{
    let earlier = candidates.drop_last();
    let here = present(candidates, facts, id, tags);
    let gone = absent(candidates, facts, id, tags);
    let here_before = present(earlier, facts, id, tags);
    let gone_before = absent(earlier, facts, id, tags);
    lemma_only_candidates(earlier, facts, id, tags);
    let last = candidates.last();
    assert(candidates[candidates.len() - 1] == last);
    let uuid = candidates[i].uuid;
    if i < earlier.len() {
        assert(earlier[i] == candidates[i]);
        assert forall|a: int, b: int| 0 <= a < b < earlier.len() implies (
        #[trigger] earlier[a]).uuid != (#[trigger] earlier[b]).uuid by {
            assert(candidates[a].uuid != candidates[b].uuid);
        }
        law_holder_is_present_or_absent(earlier, facts, id, tags, i);
        assert(last.uuid != uuid);
        if exists|k: int| 0 <= k < here_before.len() && (#[trigger] here_before[k]).uuid == uuid {
            let k = choose|k: int|
                0 <= k < here_before.len() && (#[trigger] here_before[k]).uuid == uuid;
            assert(here[k].uuid == uuid);
        }
        if exists|k: int| 0 <= k < here.len() && (#[trigger] here[k]).uuid == uuid {
            let k = choose|k: int| 0 <= k < here.len() && (#[trigger] here[k]).uuid == uuid;
            assert(k < here_before.len());
            assert(here_before[k].uuid == uuid);
        }
        if gone_before.contains((id, uuid)) {
            let k = choose|k: int| 0 <= k < gone_before.len() && gone_before[k] == (id, uuid);
            assert(gone[k] == (id, uuid));
        }
        if gone.contains((id, uuid)) {
            let k = choose|k: int| 0 <= k < gone.len() && gone[k] == (id, uuid);
            assert(k < gone_before.len());
            assert(gone_before[k] == (id, uuid));
        }
    } else {
        lemma_each_counts_once(earlier, facts, id, tags);
        assert forall|k: int| 0 <= k < here_before.len() implies (#[trigger] here_before[k]).uuid
            != uuid by {
            let j = choose|j: int|
                0 <= j < earlier.len() && (#[trigger] earlier[j]).uuid == here_before[k].uuid;
            assert(candidates[j].uuid != candidates[i].uuid);
        }
        assert forall|k: int| 0 <= k < gone_before.len() implies (#[trigger] gone_before[k]).1
            != uuid by {
            let j = choose|j: int|
                0 <= j < earlier.len() && (#[trigger] earlier[j]).uuid == gone_before[k].1;
            assert(candidates[j].uuid != candidates[i].uuid);
        }
        if seen_snapshot(last, facts[i], id, tags) is Some {
            assert(here[here_before.len() as int].uuid == uuid);
            assert(gone == gone_before);
        } else {
            assert(gone[gone_before.len() as int] == (id, uuid));
            assert(here == here_before);
        }
    }
}

proof fn lemma_each_counts_once(
    candidates: Seq<HolderCandidate>,
    facts: Seq<Option<PlayerFacts>>,
    id: i32,
    tags: Seq<Tag>,
)
    ensures
        present(candidates, facts, id, tags).len() + absent(candidates, facts, id, tags).len()
            == candidates.len(),
    decreases candidates.len(),
{
    if candidates.len() > 0 {
        lemma_each_counts_once(candidates.drop_last(), facts, id, tags);
    }
}

proof fn lemma_only_candidates(
    candidates: Seq<HolderCandidate>,
    facts: Seq<Option<PlayerFacts>>,
    id: i32,
    tags: Seq<Tag>,
)
    ensures
        forall|k: int|
            0 <= k < present(candidates, facts, id, tags).len() ==> exists|j: int|
                0 <= j < candidates.len() && (#[trigger] candidates[j]).uuid == (
                #[trigger] present(candidates, facts, id, tags)[k]).uuid,
        forall|k: int|
            0 <= k < absent(candidates, facts, id, tags).len() ==> exists|j: int|
                0 <= j < candidates.len() && (#[trigger] candidates[j]).uuid == (#[trigger] absent(
                    candidates,
                    facts,
                    id,
                    tags,
                )[k]).1,
    decreases candidates.len(),
{
    if candidates.len() > 0 {
        let earlier = candidates.drop_last();
        lemma_only_candidates(earlier, facts, id, tags);
        let here = present(candidates, facts, id, tags);
        let gone = absent(candidates, facts, id, tags);
        let here_before = present(earlier, facts, id, tags);
        let gone_before = absent(earlier, facts, id, tags);
        assert forall|k: int| 0 <= k < here.len() implies exists|j: int|
            0 <= j < candidates.len() && (#[trigger] candidates[j]).uuid == (
            #[trigger] here[k]).uuid by {
            if k < here_before.len() {
                assert(here[k] == here_before[k]);
                let j = choose|j: int|
                    0 <= j < earlier.len() && (#[trigger] earlier[j]).uuid == here_before[k].uuid;
                assert(candidates[j].uuid == here[k].uuid);
            } else {
                assert(candidates[candidates.len() - 1].uuid == here[k].uuid);
            }
        }
        assert forall|k: int| 0 <= k < gone.len() implies exists|j: int|
            0 <= j < candidates.len() && (#[trigger] candidates[j]).uuid == (#[trigger] gone[k]).1 by {
            if k < gone_before.len() {
                assert(gone[k] == gone_before[k]);
                let j = choose|j: int|
                    0 <= j < earlier.len() && (#[trigger] earlier[j]).uuid == gone_before[k].1;
                assert(candidates[j].uuid == gone[k].1);
            } else {
                assert(candidates[candidates.len() - 1].uuid == gone[k].1);
            }
        }
    }
}

} // verus!
