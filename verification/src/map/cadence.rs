//! When the updates of a carried map are sent, over successive calls.
use vstd::prelude::*;

use crate::keyed::Tag;
use crate::map::packet::{Icon, MapUpdate, Patch};
use crate::map::player_sync::{
    advanced, checked, first_ones, planned_chunks, refreshed, request_place, terrain_requests,
    valid_slots, with_check, without_stale, MapStore, TerrainRequest,
};
use crate::map::synchronization::{
    absent, after_drawing, after_showing, all_absent, all_present, all_told, answered, asked,
    seen_snapshot, synchronized, synchronizes, told, Situation,
};
use crate::map::synchronize::{
    candidates_of, carried_by, unfollowed, with_changes, with_player, HolderCandidate, Tracking,
};
use crate::map::terrain::TerrainSample;
use crate::map::tracking::{
    after_checks, captured, holder_place, law_first_update_is_complete, new_holder, with_request,
    Carried, Followed, Holder, MapPoint, PlayerFacts, PlayerSession,
};
use crate::map::{SavedMap, MAP_COLOR_COUNT};

verus! {

/// A player carries stacks of one map that exists, and holds none in a hand.
pub open spec fn carries_one_map(store: MapStore, situation: Situation) -> bool {
    &&& situation.carried.len() >= 1
    &&& forall|i: int|
        0 <= i < situation.carried.len() ==> (#[trigger] situation.carried[i]).id
            == situation.carried[0].id
    &&& store.maps.maps.contains_key(situation.carried[0].id)
    &&& situation.held.len() == 0
}

/// Wherever the player is named among those who may carry the map, it is known that
/// they do.
pub open spec fn sees_player(
    store: MapStore,
    situation: Situation,
    facts: Seq<Seq<Option<PlayerFacts>>>,
) -> bool {
    let id = situation.carried[0].id;
    let candidates = candidates_of(situation.seen(store), id);
    forall|i: int|
        0 <= i < candidates.len() && candidates[i].uuid == situation.player.uuid
            ==> seen_snapshot(
            #[trigger] candidates[i],
            facts[0][i],
            id,
            situation.tags,
        ) is Some
}

/// The player as a holder of the map, after it was seen that they carry it: as they were
/// in the same session, else anew.
pub open spec fn seen_holder(store: MapStore, situation: Situation) -> Holder {
    let player = situation.player;
    match store.tracking.holder(situation.carried[0].id, player.uuid) {
        Some(holder) => if holder.session == player.session {
            holder
        } else {
            new_holder(player)
        },
        None => new_holder(player),
    }
}

/// The player as a holder of the map, when it is checked for updates.
pub open spec fn holder_at_check(store: MapStore, situation: Situation) -> Holder {
    Holder { terrain: None, ..seen_holder(store, situation) }
}

/// The icons that a call shows to a player who carries one map.
pub open spec fn icons_shown<
    S: Fn(i32, i32, i32) -> Option<TerrainSample>,
    F: Fn(i32, i32, i8, u64, u64, u32) -> MapPoint,
>(
    store: MapStore,
    situation: Situation,
    facts: Seq<Seq<Option<PlayerFacts>>>,
    sample: S,
    place: F,
) -> Seq<Icon> {
    after_showing(store, situation, Seq::empty(), facts, sample, place).1[0].1
}

/// The updates that a number of checks with the same icons yield.
pub open spec fn check_updates(
    holder: Holder,
    id: i32,
    map: SavedMap,
    icons: Seq<Icon>,
    count: nat,
) -> Seq<MapUpdate>
    decreases count,
{
    if count == 0 {
        Seq::empty()
    } else {
        let before = (count - 1) as nat;
        let updates = check_updates(holder, id, map, icons, before);
        match after_checks(holder, icons, before).update(id, map, icons) {
            Some(update) => updates.push(update),
            None => updates,
        }
    }
}

/// No player stands twice among those who carry a map.
pub open spec fn once_each(tracking: Tracking, id: i32) -> bool {
    tracking.maps.contains_key(id) ==> distinct(tracking.maps[id].holders)
}

/// No two holders have one identity.
pub open spec fn distinct(holders: Seq<Holder>) -> bool {
    forall|i: int, j: int|
        0 <= i < j < holders.len() ==> (#[trigger] holders[i]).uuid != (#[trigger] holders[j]).uuid
}

/// What is known of the player's session is that they carry the map.
pub open spec fn knows_player<K: Fn(u128, u64) -> Option<PlayerFacts>>(
    known: K,
    situation: Situation,
) -> bool {
    let player = situation.player;
    forall|facts: Option<PlayerFacts>| #[trigger]
        known.ensures((player.uuid, player.session), facts) ==> (facts matches Some(facts)
            && captured(player.uuid, facts, situation.carried[0].id, situation.tags) is Some)
}

proof fn lemma_holder_place(holders: Seq<Holder>, uuid: u128)
    ensures
        0 <= holder_place(holders, uuid) <= holders.len(),
        holder_place(holders, uuid) < holders.len() ==> holders[holder_place(holders, uuid)].uuid
            == uuid,
        forall|i: int|
            0 <= i < holder_place(holders, uuid) ==> (#[trigger] holders[i]).uuid != uuid,
    decreases holders.len(),
{
    if holders.len() > 0 && holders[0].uuid != uuid {
        let rest = holders.drop_first();
        lemma_holder_place(rest, uuid);
        assert forall|i: int| 0 <= i < holder_place(holders, uuid) implies (
        #[trigger] holders[i]).uuid != uuid by {
            if i > 0 {
                assert(rest[i - 1] == holders[i]);
            }
        }
    }
}

/// The first place of an identity is where it stands and nothing before it does.
proof fn lemma_place_is(holders: Seq<Holder>, uuid: u128, place: int)
    requires
        0 <= place < holders.len(),
        holders[place].uuid == uuid,
        forall|i: int| 0 <= i < place ==> (#[trigger] holders[i]).uuid != uuid,
    ensures
        holder_place(holders, uuid) == place,
{
    lemma_holder_place(holders, uuid);
    let found = holder_place(holders, uuid);
    if found < place {
        assert(holders[found].uuid != uuid);
    } else if found > place {
        assert(holders[place].uuid != uuid);
    }
}

proof fn lemma_distinct_change(map: Followed, uuid: u128, change: spec_fn(Holder) -> Holder)
    requires
        distinct(map.holders),
        forall|holder: Holder| (#[trigger] change(holder)).uuid == holder.uuid,
    ensures
        distinct(map.with_holder(uuid, change).holders),
{
    let after = map.with_holder(uuid, change).holders;
    assert forall|i: int| 0 <= i < after.len() implies (#[trigger] after[i]).uuid
        == map.holders[i].uuid by {}
}

proof fn lemma_distinct_without(map: Followed, uuid: u128)
    requires
        distinct(map.holders),
    ensures
        distinct(map.without_holder(uuid).holders),
{
}

proof fn lemma_distinct_joined(map: Followed, player: PlayerSession)
    requires
        distinct(map.holders),
    ensures
        distinct(map.joined(player).holders),
{
    let place = holder_place(map.holders, player.uuid);
    lemma_holder_place(map.holders, player.uuid);
    let after = map.joined(player).holders;
    assert forall|i: int| 0 <= i < map.holders.len() implies (#[trigger] after[i]).uuid
        == map.holders[i].uuid by {}
}

/// Changing a holder, without their identity, changes them and nobody else.
proof fn lemma_changed_holder(map: Followed, uuid: u128, change: spec_fn(Holder) -> Holder)
    requires
        forall|holder: Holder| (#[trigger] change(holder)).uuid == holder.uuid,
    ensures
        map.with_holder(uuid, change).holder(uuid) == match map.holder(uuid) {
            Some(holder) => Some(change(holder)),
            None => None,
        },
{
    let place = holder_place(map.holders, uuid);
    lemma_holder_place(map.holders, uuid);
    if place < map.holders.len() {
        let changed = map.with_holder(uuid, change);
        assert forall|i: int| 0 <= i < place implies (#[trigger] changed.holders[i]).uuid
            != uuid by {
            assert(changed.holders[i] == map.holders[i]);
        }
        lemma_place_is(changed.holders, uuid, place);
    }
}

proof fn lemma_joined_holder(map: Followed, player: PlayerSession)
    ensures
        map.joined(player).holder(player.uuid) == Some(
            match map.holder(player.uuid) {
                Some(holder) => if holder.session == player.session {
                    holder
                } else {
                    new_holder(player)
                },
                None => new_holder(player),
            },
        ),
{
    let uuid = player.uuid;
    let place = holder_place(map.holders, uuid);
    let joined = map.joined(player);
    lemma_holder_place(map.holders, uuid);
    assert forall|i: int| 0 <= i < place implies (#[trigger] joined.holders[i]).uuid != uuid by {
        assert(joined.holders[i] == map.holders[i]);
    }
    lemma_place_is(joined.holders, uuid, place);
}

proof fn lemma_other_holder_dropped(map: Followed, other: u128, uuid: u128)
    requires
        other != uuid,
    ensures
        map.without_holder(other).holder(uuid) == map.holder(uuid),
{
    let gone = holder_place(map.holders, other);
    let place = holder_place(map.holders, uuid);
    lemma_holder_place(map.holders, other);
    lemma_holder_place(map.holders, uuid);
    if gone < map.holders.len() {
        let left = map.without_holder(other).holders;
        let moved = if gone < place {
            place - 1
        } else {
            place
        };
        assert forall|i: int| 0 <= i < moved implies (#[trigger] left[i]).uuid != uuid by {
            if i < gone {
                assert(left[i] == map.holders[i]);
            } else {
                assert(left[i] == map.holders[i + 1]);
            }
        }
        if place < map.holders.len() {
            assert(gone != place);
            assert(left[moved] == map.holders[place]);
            lemma_place_is(left, uuid, moved);
        } else {
            lemma_holder_place(left, uuid);
            assert forall|i: int| 0 <= i < left.len() implies (#[trigger] left[i]).uuid != uuid by {
                if i < gone {
                    assert(left[i] == map.holders[i]);
                } else {
                    assert(left[i] == map.holders[i + 1]);
                }
            }
        }
    }
}

/// A player who is not among those who ceased to carry maps stays a holder.
proof fn lemma_kept_holder(tracking: Tracking, stale: Seq<(i32, u128)>, id: i32, uuid: u128)
    requires
        forall|i: int| 0 <= i < stale.len() ==> (#[trigger] stale[i]).1 != uuid,
    ensures
        without_stale(tracking, stale).holder(id, uuid) == tracking.holder(id, uuid),
        without_stale(tracking, stale).maps.dom() == tracking.maps.dom(),
        once_each(tracking, id) ==> once_each(without_stale(tracking, stale), id),
    decreases stale.len(),
{
    if stale.len() > 0 {
        let rest = stale.drop_last();
        assert forall|i: int| 0 <= i < rest.len() implies (#[trigger] rest[i]).1 != uuid by {
            assert(rest[i] == stale[i]);
        }
        lemma_kept_holder(tracking, rest, id, uuid);
        let before = without_stale(tracking, rest);
        let (map, other) = stale.last();
        assert(other != uuid);
        if before.maps.contains_key(id) {
            lemma_other_holder_dropped(before.maps[id], other, uuid);
            if distinct(before.maps[id].holders) {
                lemma_distinct_without(before.maps[id], other);
            }
        }
        assert(before.without_holder(map, other).maps.dom() =~= before.maps.dom());
    }
}

/// Nobody who is seen to carry a map is among those who do not.
proof fn lemma_absent_ones(
    candidates: Seq<HolderCandidate>,
    facts: Seq<Option<PlayerFacts>>,
    id: i32,
    tags: Seq<Tag>,
    uuid: u128,
)
    requires
        forall|i: int|
            0 <= i < candidates.len() && candidates[i].uuid == uuid ==> seen_snapshot(
                #[trigger] candidates[i],
                facts[i],
                id,
                tags,
            ) is Some,
    ensures
        forall|i: int|
            0 <= i < absent(candidates, facts, id, tags).len() ==> (#[trigger] absent(
                candidates,
                facts,
                id,
                tags,
            )[i]).1 != uuid,
    decreases candidates.len(),
{
    if candidates.len() > 0 {
        let rest = candidates.drop_last();
        assert forall|i: int|
            0 <= i < rest.len() && rest[i].uuid == uuid implies seen_snapshot(
            #[trigger] rest[i],
            facts[i],
            id,
            tags,
        ) is Some by {
            assert(rest[i] == candidates[i]);
        }
        lemma_absent_ones(rest, facts, id, tags, uuid);
        let last = candidates[candidates.len() - 1];
        let before = absent(rest, facts, id, tags);
        let all = absent(candidates, facts, id, tags);
        assert(candidates.last() == last);
        assert(last.uuid == uuid ==> seen_snapshot(last, facts[candidates.len() - 1], id, tags)
            is Some);
        assert forall|i: int| 0 <= i < all.len() implies (#[trigger] all[i]).1 != uuid by {
            if i < before.len() {
                assert(all[i] == before[i]);
            }
        }
    }
}

/// The slots of carried maps that are all one.
proof fn lemma_slots(maps: Map<i32, SavedMap>, carried: Seq<Carried>, id: i32)
    requires
        maps.contains_key(id),
        forall|i: int| 0 <= i < carried.len() ==> (#[trigger] carried[i]).id == id,
    ensures
        valid_slots(maps, carried) == Seq::new(carried.len(), |i: int| id),
    decreases carried.len(),
{
    if carried.len() > 0 {
        let rest = carried.drop_last();
        assert forall|i: int| 0 <= i < rest.len() implies (#[trigger] rest[i]).id == id by {
            assert(rest[i] == carried[i]);
        }
        lemma_slots(maps, rest, id);
        assert(carried.last() == carried[carried.len() - 1]);
    }
    assert(valid_slots(maps, carried) =~= Seq::new(carried.len(), |i: int| id));
}

proof fn lemma_first_one(slots: Seq<i32>, id: i32)
    requires
        slots.len() > 0,
        forall|i: int| 0 <= i < slots.len() ==> #[trigger] slots[i] == id,
    ensures
        first_ones(slots) == seq![id],
    decreases slots.len(),
{
    let rest = slots.drop_last();
    assert(slots.last() == id);
    if rest.len() == 0 {
        assert(first_ones(rest) == Seq::<i32>::empty());
        assert(!Seq::<i32>::empty().contains(id));
        assert(first_ones(slots) =~= seq![id]);
    } else {
        lemma_first_one(rest, id);
        assert(seq![id][0] == id);
        assert(first_ones(rest).contains(id));
    }
}

/// The slots and the order of the carried map.
proof fn lemma_one_map(store: MapStore, situation: Situation)
    requires
        carries_one_map(store, situation),
    ensures
        situation.slots(store) == Seq::new(
            situation.carried.len(),
            |i: int| situation.carried[0].id,
        ),
        situation.order(store) == seq![situation.carried[0].id],
{
    let id = situation.carried[0].id;
    lemma_slots(store.maps.maps, situation.carried, id);
    lemma_first_one(situation.slots(store), id);
    assert(situation.slots(store) =~= Seq::new(
        situation.carried.len(),
        |i: int| situation.carried[0].id,
    ));
}

/// The checks of a map's slots check the holder once each.
proof fn lemma_checks(
    tracking: Tracking,
    maps: Map<i32, SavedMap>,
    uuid: u128,
    id: i32,
    slots: Seq<i32>,
    icons: Seq<(i32, Seq<Icon>)>,
)
    requires
        maps.contains_key(id),
        tracking.holder(id, uuid) is Some,
        icons.len() == 1,
        icons[0].0 == id,
        forall|i: int| 0 <= i < slots.len() ==> #[trigger] slots[i] == id,
    ensures
        ({
            let (after, updates) = checked(tracking, maps, uuid, slots, icons);
            let holder = tracking.holder(id, uuid)->0;
            &&& after.holder(id, uuid) == Some(after_checks(holder, icons[0].1, slots.len()))
            &&& updates == check_updates(holder, id, maps[id], icons[0].1, slots.len())
            &&& once_each(tracking, id) ==> once_each(after, id)
        }),
    decreases slots.len(),
{
    if slots.len() > 0 {
        let rest = slots.drop_last();
        assert(slots.last() == id);
        lemma_checks(tracking, maps, uuid, id, rest, icons);
        let before = checked(tracking, maps, uuid, rest, icons).0;
        assert(request_place(icons, id) == 0);
        lemma_changed_holder(before.maps[id], uuid, with_check(icons[0].1));
        if distinct(before.maps[id].holders) {
            lemma_distinct_change(before.maps[id], uuid, with_check(icons[0].1));
        }
    }
}

/// After it was seen what the player carries, they are a holder of the map.
proof fn lemma_seen_player(store: MapStore, situation: Situation)
    requires
        carries_one_map(store, situation),
    ensures
        ({
            let id = situation.carried[0].id;
            let seen = situation.seen(store);
            &&& seen.maps.contains_key(id)
            &&& seen.holder(id, situation.player.uuid) == Some(seen_holder(store, situation))
            &&& once_each(store.tracking, id) ==> once_each(seen, id)
        }),
{
    let id = situation.carried[0].id;
    let player = situation.player;
    let uuid = player.uuid;
    let carried = situation.carried;
    let order = situation.order(store);
    lemma_one_map(store, situation);
    let seen = situation.seen(store);
    let gone = store.tracking.maps_of(uuid).difference(order.to_set());
    let leaving = |map: Followed| map.without_holder(uuid);
    let left = with_changes(store.tracking.maps, gone, leaving);
    assert(order.contains(id)) by {
        assert(order[0] == id);
    }
    assert(!gone.contains(id));
    assert(order.drop_last() =~= Seq::<i32>::empty());
    assert(with_player(left, player, carried, order.drop_last()) == left);
    let first = if left.contains_key(id) {
        left[id]
    } else {
        unfollowed()
    };
    assert(seen.maps == left.insert(id, carried_by(first, player, carried, id)));
    lemma_joined_holder(first, player);
    assert(first.holder(uuid) == store.tracking.holder(id, uuid)) by {
        if !left.contains_key(id) {
            assert(holder_place(Seq::<Holder>::empty(), uuid) == 0);
        }
    }
    assert(seen.maps[id].holder(uuid) == first.joined(player).holder(uuid));
    if once_each(store.tracking, id) {
        lemma_distinct_joined(first, player);
    }
}

/// Without a map in a hand nothing is drawn: the player joins the holders, and their
/// chunk requests are dropped.
proof fn lemma_nothing_drawn<S: Fn(i32, i32, i32) -> Option<TerrainSample>>(
    store: MapStore,
    situation: Situation,
    sample: S,
)
    requires
        carries_one_map(store, situation),
    ensures
        ({
            let drawn = after_drawing(store, situation, Seq::empty(), sample);
            let id = situation.carried[0].id;
            &&& drawn.maps == store.maps
            &&& drawn.tracking.maps.contains_key(id)
            &&& drawn.tracking.holder(id, situation.player.uuid) == Some(
                holder_at_check(store, situation),
            )
            &&& situation.noted(store).1.len() == 0
            &&& once_each(store.tracking, id) ==> once_each(drawn.tracking, id)
        }),
{
    let id = situation.carried[0].id;
    let player = situation.player;
    let uuid = player.uuid;
    let chunks = planned_chunks(
        store.maps,
        situation.world,
        situation.has_ceiling,
        situation.in_domain,
        situation.held,
    );
    assert(chunks.len() == 0);
    let seen = situation.seen(store);
    lemma_seen_player(store, situation);
    let change = with_request(None);
    lemma_changed_holder(seen.maps[id], uuid, change);
    if once_each(store.tracking, id) {
        lemma_distinct_change(seen.maps[id], uuid, change);
    }
    let (noted, requests) = situation.noted(store);
    assert(requests.len() == 0);
    assert(noted.holder(id, uuid) == Some(holder_at_check(store, situation)));
    let answers = answered(requests, Seq::empty());
    assert(answers.len() == 0);
    assert(advanced(noted, uuid, answers).1.len() == 0);
}

/// A call for a player who carries stacks of one map, and holds none in a hand, checks
/// for each of the stacks whether the map has to be sent: it yields the updates that
/// the checks yield, and nothing else, and leaves the maps as they are.
pub proof fn law_call_checks_every_stack<
    S: Fn(i32, i32, i32) -> Option<TerrainSample>,
    F: Fn(i32, i32, i8, u64, u64, u32) -> MapPoint,
>(
    store: MapStore,
    situation: Situation,
    facts: Seq<Seq<Option<PlayerFacts>>>,
    sample: S,
    place: F,
)
    requires
        carries_one_map(store, situation),
        sees_player(store, situation, facts),
    ensures
        ({
            let (after, updates) = synchronized(
                store,
                situation,
                Seq::empty(),
                facts,
                sample,
                place,
            );
            let id = situation.carried[0].id;
            let icons = icons_shown(store, situation, facts, sample, place);
            let holder = holder_at_check(store, situation);
            &&& after.maps == store.maps
            &&& after.tracking.holder(id, situation.player.uuid) == Some(
                after_checks(holder, icons, situation.carried.len()),
            )
            &&& updates == check_updates(
                holder,
                id,
                store.maps.maps[id],
                icons,
                situation.carried.len(),
            )
            &&& once_each(store.tracking, id) ==> once_each(after.tracking, id)
        }),
{
    let id = situation.carried[0].id;
    let uuid = situation.player.uuid;
    let maps = store.maps.maps;
    let order = situation.order(store);
    let seen = situation.seen(store);
    lemma_one_map(store, situation);
    lemma_nothing_drawn(store, situation, sample);
    let drawn = after_drawing(store, situation, Seq::empty(), sample);
    let stale = all_absent(seen, order, facts, situation.tags);
    assert(order.drop_last() =~= Seq::<i32>::empty());
    assert(order.last() == id);
    let missing = absent(candidates_of(seen, id), facts[0], id, situation.tags);
    assert(all_absent(seen, order.drop_last(), facts, situation.tags) == Seq::<
        (i32, u128),
    >::empty());
    assert(stale =~= missing);
    lemma_absent_ones(candidates_of(seen, id), facts[0], id, situation.tags, uuid);
    lemma_kept_holder(drawn.tracking, stale, id, uuid);
    let kept = without_stale(drawn.tracking, stale);
    assert(kept.maps.contains_key(id));
    let (shown, icons) = after_showing(store, situation, Seq::empty(), facts, sample, place);
    assert(refreshed(
        kept,
        maps,
        uuid,
        order.drop_last(),
        all_present(seen, order, facts, situation.tags),
        place,
    ) == (kept, Seq::<(i32, Seq<Icon>)>::empty()));
    assert(icons.len() == 1 && icons[0].0 == id);
    assert(shown.maps[id].holders == kept.maps[id].holders);
    assert(shown.holder(id, uuid) == kept.holder(id, uuid));
    lemma_checks(shown, maps, uuid, id, situation.slots(store), icons);
}

proof fn lemma_checks_keep_session(holder: Holder, icons: Seq<Icon>, count: nat)
    ensures
        after_checks(holder, icons, count).session == holder.session,
        after_checks(holder, icons, count).terrain == holder.terrain,
    decreases count,
{
    if count > 0 {
        lemma_checks_keep_session(holder, icons, (count - 1) as nat);
    }
}

/// One check for updates.
proof fn lemma_one_check(holder: Holder, id: i32, map: SavedMap, icons: Seq<Icon>)
    ensures
        after_checks(holder, icons, 1) == holder.after_check(icons),
        check_updates(holder, id, map, icons, 1) == match holder.update(id, map, icons) {
            Some(update) => seq![update],
            None => Seq::empty(),
        },
{
    assert(after_checks(holder, icons, 0) == holder);
    assert(check_updates(holder, id, map, icons, 0) == Seq::<MapUpdate>::empty());
    assert(check_updates(holder, id, map, icons, 1) =~= match holder.update(id, map, icons) {
        Some(update) => seq![update],
        None => Seq::empty(),
    });
}

/// Two checks for updates.
proof fn lemma_two_checks(holder: Holder, id: i32, map: SavedMap, icons: Seq<Icon>)
    ensures
        after_checks(holder, icons, 2) == holder.after_check(icons).after_check(icons),
        check_updates(holder, id, map, icons, 2) == (match holder.update(id, map, icons) {
            Some(update) => seq![update],
            None => Seq::empty(),
        }) + (match holder.after_check(icons).update(id, map, icons) {
            Some(update) => seq![update],
            None => Seq::empty(),
        }),
{
    lemma_one_check(holder, id, map, icons);
    assert(check_updates(holder, id, map, icons, 2) =~= (match holder.update(id, map, icons) {
        Some(update) => seq![update],
        None => Seq::empty(),
    }) + (match holder.after_check(icons).update(id, map, icons) {
        Some(update) => seq![update],
        None => Seq::empty(),
    }));
}

/// Where the player's session is known to carry the map, they are seen to carry it.
proof fn lemma_known_player_is_seen<K: Fn(u128, u64) -> Option<PlayerFacts>>(
    store: MapStore,
    situation: Situation,
    known: K,
    facts: Seq<Seq<Option<PlayerFacts>>>,
)
    requires
        carries_one_map(store, situation),
        once_each(store.tracking, situation.carried[0].id),
        knows_player(known, situation),
        all_told(known, situation.seen(store), situation.order(store), facts),
    ensures
        sees_player(store, situation, facts),
{
    let id = situation.carried[0].id;
    let player = situation.player;
    let seen = situation.seen(store);
    let order = situation.order(store);
    lemma_one_map(store, situation);
    lemma_seen_player(store, situation);
    let candidates = candidates_of(seen, id);
    let holders = seen.maps[id].holders;
    let place = holder_place(holders, player.uuid);
    lemma_holder_place(holders, player.uuid);
    assert(order[0] == id);
    assert(told(known, candidates, facts[0]));
    assert forall|i: int|
        0 <= i < candidates.len() && candidates[i].uuid == player.uuid implies seen_snapshot(
        #[trigger] candidates[i],
        facts[0][i],
        id,
        situation.tags,
    ) is Some by {
        if i != place {
            assert(holders[i].uuid != holders[place].uuid);
        }
        assert(candidates[i].session == player.session);
        assert(known.ensures((candidates[i].uuid, candidates[i].session), facts[0][i]));
    }
}

/// One call for a player who is known to carry stacks of one map.
proof fn lemma_call<
    R: Fn(&TerrainRequest) -> bool,
    S: Fn(i32, i32, i32) -> Option<TerrainSample>,
    K: Fn(u128, u64) -> Option<PlayerFacts>,
    F: Fn(i32, i32, i8, u64, u64, u32) -> MapPoint,
>(
    before: MapStore,
    after: MapStore,
    updates: Seq<MapUpdate>,
    situation: Situation,
    request: R,
    sample: S,
    known: K,
    place: F,
) -> (facts: Seq<Seq<Option<PlayerFacts>>>)
    requires
        carries_one_map(before, situation),
        once_each(before.tracking, situation.carried[0].id),
        knows_player(known, situation),
        synchronizes(before, after, updates, situation, request, sample, known, place),
    ensures
        ({
            let id = situation.carried[0].id;
            let icons = icons_shown(before, situation, facts, sample, place);
            let holder = holder_at_check(before, situation);
            let count = situation.carried.len();
            &&& all_told(known, situation.seen(before), situation.order(before), facts)
            &&& after.maps == before.maps
            &&& once_each(after.tracking, id)
            &&& holder_at_check(after, situation) == after_checks(holder, icons, count)
            &&& updates == check_updates(holder, id, before.maps.maps[id], icons, count)
        }),
{
    let (requests, ready, facts) = choose|
        requests: Seq<TerrainRequest>,
        ready: Seq<bool>,
        facts: Seq<Seq<Option<PlayerFacts>>>,
    |
        {
            &&& #[trigger] asked(request, requests, ready)
            &&& terrain_requests(requests) == situation.noted(before).1
            &&& #[trigger] all_told(known, situation.seen(before), situation.order(before), facts)
            &&& (after, updates) == synchronized(before, situation, ready, facts, sample, place)
        };
    lemma_nothing_drawn(before, situation, sample);
    assert(terrain_requests(requests).len() == requests.len());
    assert(ready =~= Seq::<bool>::empty());
    lemma_known_player_is_seen(before, situation, known, facts);
    law_call_checks_every_stack(before, situation, facts, sample, place);
    lemma_checks_keep_session(
        holder_at_check(before, situation),
        icons_shown(before, situation, facts, sample, place),
        situation.carried.len(),
    );
    facts
}

/// A call at which the icons are still owed, and not yet sent, yields nothing.
proof fn lemma_waiting_call<
    R: Fn(&TerrainRequest) -> bool,
    S: Fn(i32, i32, i32) -> Option<TerrainSample>,
    K: Fn(u128, u64) -> Option<PlayerFacts>,
    F: Fn(i32, i32, i8, u64, u64, u32) -> MapPoint,
>(
    before: MapStore,
    after: MapStore,
    updates: Seq<MapUpdate>,
    situation: Situation,
    request: R,
    sample: S,
    known: K,
    place: F,
)
    requires
        carries_one_map(before, situation),
        situation.carried.len() == 1,
        once_each(before.tracking, situation.carried[0].id),
        knows_player(known, situation),
        synchronizes(before, after, updates, situation, request, sample, known, place),
        holder_at_check(before, situation).dirty is None,
        holder_at_check(before, situation).dirty_icons,
        1 <= holder_at_check(before, situation).tick < 5,
    ensures
        updates.len() == 0,
        after.maps == before.maps,
        once_each(after.tracking, situation.carried[0].id),
        holder_at_check(after, situation).dirty is None,
        holder_at_check(after, situation).dirty_icons,
        holder_at_check(after, situation).tick == holder_at_check(before, situation).tick + 1,
{
    let id = situation.carried[0].id;
    let facts = lemma_call(before, after, updates, situation, request, sample, known, place);
    let icons = icons_shown(before, situation, facts, sample, place);
    lemma_one_check(holder_at_check(before, situation), id, before.maps.maps[id], icons);
}

/// The icons that a player who carries one map is shown by one call are not those that
/// they are shown by another.
pub open spec fn icons_differ<
    S: Fn(i32, i32, i32) -> Option<TerrainSample>,
    A: Fn(u128, u64) -> Option<PlayerFacts>,
    B: Fn(u128, u64) -> Option<PlayerFacts>,
    F: Fn(i32, i32, i8, u64, u64, u32) -> MapPoint,
>(
    situation: Situation,
    first: MapStore,
    first_known: A,
    second: MapStore,
    second_known: B,
    sample: S,
    place: F,
) -> bool {
    forall|a: Seq<Seq<Option<PlayerFacts>>>, b: Seq<Seq<Option<PlayerFacts>>>|
        #[trigger] all_told(first_known, situation.seen(first), situation.order(first), a)
            && #[trigger] all_told(
            second_known,
            situation.seen(second),
            situation.order(second),
            b,
        ) ==> icons_shown(first, situation, a, sample, place) != icons_shown(
            second,
            situation,
            b,
            sample,
            place,
        )
}

/// A player who has just come to carry one stack of a map gets the whole of it by the
/// first call. Where the icons have changed by the second call, as when the player has
/// moved, the four calls from there on yield nothing, and the fifth yields one update:
/// with the icons, and without colors. `stores` are the store before, between and after
/// the calls, `updates` what each of them yields; `first_known` tells what is known of
/// players before the change, `known` from there on.
pub proof fn law_changed_icons_are_sent_by_the_fifth_call<
    R: Fn(&TerrainRequest) -> bool,
    S: Fn(i32, i32, i32) -> Option<TerrainSample>,
    A: Fn(u128, u64) -> Option<PlayerFacts>,
    K: Fn(u128, u64) -> Option<PlayerFacts>,
    F: Fn(i32, i32, i8, u64, u64, u32) -> MapPoint,
>(
    stores: Seq<MapStore>,
    updates: Seq<Seq<MapUpdate>>,
    situation: Situation,
    request: R,
    sample: S,
    first_known: A,
    known: K,
    place: F,
)
    requires
        stores.len() == 7,
        updates.len() == 6,
        carries_one_map(stores[0], situation),
        situation.carried.len() == 1,
        once_each(stores[0].tracking, situation.carried[0].id),
        stores[0].maps.maps[situation.carried[0].id].colors.len() == MAP_COLOR_COUNT,
        stores[0].tracking.holder(situation.carried[0].id, situation.player.uuid) matches Some(
            holder,
        ) ==> holder.session != situation.player.session,
        knows_player(first_known, situation),
        knows_player(known, situation),
        synchronizes(
            stores[0],
            stores[1],
            updates[0],
            situation,
            request,
            sample,
            first_known,
            place,
        ),
        forall|k: int|
            1 <= k < 6 ==> synchronizes(
                stores[k],
                stores[k + 1],
                #[trigger] updates[k],
                situation,
                request,
                sample,
                known,
                place,
            ),
        icons_differ(situation, stores[0], first_known, stores[1], known, sample, place),
    ensures
        ({
            let id = situation.carried[0].id;
            let map = stores[0].maps.maps[id];
            &&& updates[0].len() == 1 && updates[0][0].map_id == id && updates[0][0].icons is Some
                && updates[0][0].patch == Some(
                Patch { start_x: 0, start_y: 0, width: 128, height: 128, colors: map.colors },
            )
            &&& forall|k: int| 1 <= k <= 4 ==> (#[trigger] updates[k]).len() == 0
            &&& updates[5].len() == 1 && updates[5][0].map_id == id && updates[5][0].patch is None
                && exists|facts: Seq<Seq<Option<PlayerFacts>>>|
                #[trigger] all_told(
                    known,
                    situation.seen(stores[5]),
                    situation.order(stores[5]),
                    facts,
                ) && updates[5][0].icons == Some(
                    icons_shown(stores[5], situation, facts, sample, place),
                )
        }),
{
    let id = situation.carried[0].id;
    let map = stores[0].maps.maps[id];
    let facts = lemma_call(
        stores[0],
        stores[1],
        updates[0],
        situation,
        request,
        sample,
        first_known,
        place,
    );
    let first = icons_shown(stores[0], situation, facts, sample, place);
    law_first_update_is_complete(situation.player, id, map, first);
    lemma_one_check(holder_at_check(stores[0], situation), id, map, first);
    let next_facts = lemma_call(
        stores[1],
        stores[2],
        updates[1],
        situation,
        request,
        sample,
        known,
        place,
    );
    let next_icons = icons_shown(stores[1], situation, next_facts, sample, place);
    lemma_one_check(holder_at_check(stores[1], situation), id, map, next_icons);
    let holder = holder_at_check(stores[2], situation);
    assert(holder.dirty is None && holder.dirty_icons && holder.tick == 2);
    lemma_waiting_call(
        stores[2],
        stores[3],
        updates[2],
        situation,
        request,
        sample,
        known,
        place,
    );
    lemma_waiting_call(
        stores[3],
        stores[4],
        updates[3],
        situation,
        request,
        sample,
        known,
        place,
    );
    lemma_waiting_call(
        stores[4],
        stores[5],
        updates[4],
        situation,
        request,
        sample,
        known,
        place,
    );
    let last_facts = lemma_call(
        stores[5],
        stores[6],
        updates[5],
        situation,
        request,
        sample,
        known,
        place,
    );
    let last_icons = icons_shown(stores[5], situation, last_facts, sample, place);
    lemma_one_check(holder_at_check(stores[5], situation), id, map, last_icons);
}

/// Each stack of a map advances the wait for its icons: a player who has just come to
/// carry two of them gets the whole map once by the first call. Where the icons have
/// changed by the second call, it and the next one yield nothing, and the third from
/// the change on yields one update with the icons.
pub proof fn law_every_stack_advances_the_wait<
    R: Fn(&TerrainRequest) -> bool,
    S: Fn(i32, i32, i32) -> Option<TerrainSample>,
    A: Fn(u128, u64) -> Option<PlayerFacts>,
    K: Fn(u128, u64) -> Option<PlayerFacts>,
    F: Fn(i32, i32, i8, u64, u64, u32) -> MapPoint,
>(
    stores: Seq<MapStore>,
    updates: Seq<Seq<MapUpdate>>,
    situation: Situation,
    request: R,
    sample: S,
    first_known: A,
    known: K,
    place: F,
)
    requires
        stores.len() == 5,
        updates.len() == 4,
        carries_one_map(stores[0], situation),
        situation.carried.len() == 2,
        once_each(stores[0].tracking, situation.carried[0].id),
        stores[0].tracking.holder(situation.carried[0].id, situation.player.uuid) matches Some(
            holder,
        ) ==> holder.session != situation.player.session,
        knows_player(first_known, situation),
        knows_player(known, situation),
        synchronizes(
            stores[0],
            stores[1],
            updates[0],
            situation,
            request,
            sample,
            first_known,
            place,
        ),
        forall|k: int|
            1 <= k < 4 ==> synchronizes(
                stores[k],
                stores[k + 1],
                #[trigger] updates[k],
                situation,
                request,
                sample,
                known,
                place,
            ),
        icons_differ(situation, stores[0], first_known, stores[1], known, sample, place),
    ensures
        updates[0].len() == 1 && updates[0][0].icons is Some && updates[0][0].patch is Some,
        updates[1].len() == 0,
        updates[2].len() == 0,
        updates[3].len() == 1 && updates[3][0].icons is Some && updates[3][0].patch is None,
{
    let id = situation.carried[0].id;
    let map = stores[0].maps.maps[id];
    let facts = lemma_call(
        stores[0],
        stores[1],
        updates[0],
        situation,
        request,
        sample,
        first_known,
        place,
    );
    let first = icons_shown(stores[0], situation, facts, sample, place);
    lemma_two_checks(holder_at_check(stores[0], situation), id, map, first);
    let next_facts = lemma_call(
        stores[1],
        stores[2],
        updates[1],
        situation,
        request,
        sample,
        known,
        place,
    );
    let next_icons = icons_shown(stores[1], situation, next_facts, sample, place);
    lemma_two_checks(holder_at_check(stores[1], situation), id, map, next_icons);
    let facts2 = lemma_call(
        stores[2],
        stores[3],
        updates[2],
        situation,
        request,
        sample,
        known,
        place,
    );
    let icons2 = icons_shown(stores[2], situation, facts2, sample, place);
    lemma_two_checks(holder_at_check(stores[2], situation), id, map, icons2);
    let facts3 = lemma_call(
        stores[3],
        stores[4],
        updates[3],
        situation,
        request,
        sample,
        known,
        place,
    );
    let icons3 = icons_shown(stores[3], situation, facts3, sample, place);
    lemma_two_checks(holder_at_check(stores[3], situation), id, map, icons3);
}

} // verus!
