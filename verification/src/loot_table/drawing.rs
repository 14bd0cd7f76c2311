//! How often the entries of a pool are drawn, and how their items come together.
use vstd::prelude::*;

use crate::data_components::patch::Change;
use crate::ident::{Id, Identifier};
use crate::item_stack::{Item, Stack};
use crate::keyed::{find, lemma_find, Tag};
use crate::loot_table::conditions::{all_hold, LootContext};
use crate::loot_table::entries::{whole_product, LootEntry, LootPool};
use crate::loot_table::error::{LootError, LootResult};
use crate::loot_table::functions::{ConditionalLootFunction, Eval, ExplorationMapResolver};
use crate::loot_table::generation::{
    alternative_items, candidate_weight, candidates, dropped_all, entry_items, group_items,
    law_entry_keeps_collected_items, pool_items, pools_items, roll_items, rolled, rolled_entry,
    selected, tagged_items,
};
use crate::loot_table::number::stack_of;
use crate::random::Random;

verus! {

/// The random state after the conditions of the first `count` entries were tested, one
/// entry after another.
pub open spec fn tested<R: Random>(
    entries: Seq<LootEntry>,
    count: nat,
    context: LootContext,
    random: R,
) -> R
    decreases count,
{
    if count == 0 {
        random
    } else {
        all_hold(
            entries[count - 1].spec_conditions(),
            context,
            tested(entries, (count - 1) as nat, context, random),
        ).1
    }
}

/// Whether an entry passes its conditions, when those of the entries before it were
/// tested first.
pub open spec fn passes<R: Random>(
    entries: Seq<LootEntry>,
    place: int,
    context: LootContext,
    random: R,
) -> LootResult<bool> {
    all_hold(
        entries[place].spec_conditions(),
        context,
        tested(entries, place as nat, context, random),
    ).0
}

/// The number of draws that are an entry's own: its weight where it passes its
/// conditions, and none where it does not.
pub open spec fn share<R: Random>(
    entries: Seq<LootEntry>,
    place: int,
    context: LootContext,
    random: R,
) -> int {
    let weight = entries[place].spec_effective_weight(context.luck as int);
    if passes(entries, place, context, random) == Ok::<bool, LootError>(
        true,
    ) && weight > 0 {
        weight
    } else {
        0
    }
}

/// The number of draws that belong to the entries before a place.
pub open spec fn shares_before<R: Random>(
    entries: Seq<LootEntry>,
    place: nat,
    context: LootContext,
    random: R,
) -> int
    decreases place,
{
    if place == 0 {
        0
    } else {
        shares_before(entries, (place - 1) as nat, context, random) + share(
            entries,
            place - 1,
            context,
            random,
        )
    }
}

proof fn lemma_shares_grow<R: Random>(
    entries: Seq<LootEntry>,
    low: nat,
    high: nat,
    context: LootContext,
    random: R,
)
    requires
        low <= high,
    ensures
        0 <= shares_before(entries, low, context, random) <= shares_before(
            entries,
            high,
            context,
            random,
        ),
    decreases high,
{
    if low < high {
        lemma_shares_grow(entries, low, (high - 1) as nat, context, random);
    } else if low > 0 {
        lemma_shares_grow(entries, (low - 1) as nat, (low - 1) as nat, context, random);
    }
}

/// A list holds just the entries before a place that have a share, in order.
spec fn lists_shares<R: Random>(
    found: Seq<(int, int)>,
    upto: nat,
    entries: Seq<LootEntry>,
    context: LootContext,
    random: R,
) -> bool {
    &&& candidate_weight(found) == shares_before(entries, upto, context, random)
    &&& forall|j: int|
        0 <= j < found.len() ==> {
            &&& 0 <= (#[trigger] found[j]).0 < upto
            &&& found[j].1 == share(entries, found[j].0, context, random)
            &&& found[j].1 > 0
            &&& candidate_weight(found.take(j)) == shares_before(
                entries,
                found[j].0 as nat,
                context,
                random,
            )
        }
}

proof fn lemma_candidates_list_shares<R: Random>(
    entries: Seq<LootEntry>,
    from: nat,
    found: Seq<(int, int)>,
    context: LootContext,
    random: R,
) -> (all: Seq<(int, int)>)
    requires
        from <= entries.len(),
        lists_shares(found, from, entries, context, random),
        forall|i: int|
            0 <= i < entries.len() ==> #[trigger] passes(entries, i, context, random) is Ok,
    ensures
        candidates(entries, from as int, found, context, tested(entries, from, context, random))
            == (Ok::<Seq<(int, int)>, LootError>(all), tested(
            entries,
            entries.len(),
            context,
            random,
        )),
        lists_shares(all, entries.len(), entries, context, random),
    decreases entries.len() - from,
{
    if from == entries.len() {
        found
    } else {
        let next = (from + 1) as nat;
        let weight = share(entries, from as int, context, random);
        lemma_one_more_entry(found, from, entries, context, random);
        assert(passes(entries, from as int, context, random) is Ok);
        assert(tested(entries, next, context, random) == all_hold(
            entries[from as int].spec_conditions(),
            context,
            tested(entries, from, context, random),
        ).1);
        let more = if weight > 0 {
            found.push((from as int, weight))
        } else {
            found
        };
        lemma_candidates_list_shares(entries, next, more, context, random)
    }
}

/// A list goes on to hold just the entries that have a share when the next entry is
/// added to it where it has one.
proof fn lemma_one_more_entry<R: Random>(
    found: Seq<(int, int)>,
    from: nat,
    entries: Seq<LootEntry>,
    context: LootContext,
    random: R,
)
    requires
        lists_shares(found, from, entries, context, random),
    ensures
        ({
            let weight = share(entries, from as int, context, random);
            let more = if weight > 0 {
                found.push((from as int, weight))
            } else {
                found
            };
            lists_shares(more, (from + 1) as nat, entries, context, random)
        }),
{
    let next = (from + 1) as nat;
    let weight = share(entries, from as int, context, random);
    assert(shares_before(entries, next, context, random) == shares_before(
        entries,
        from,
        context,
        random,
    ) + weight);
    if weight > 0 {
        let more = found.push((from as int, weight));
        assert(more.drop_last() =~= found);
        assert forall|j: int| 0 <= j < more.len() implies {
            &&& 0 <= (#[trigger] more[j]).0 < next
            &&& more[j].1 == share(entries, more[j].0, context, random)
            &&& more[j].1 > 0
            &&& candidate_weight(more.take(j)) == shares_before(
                entries,
                more[j].0 as nat,
                context,
                random,
            )
        } by {
            if j < found.len() {
                assert(more[j] == found[j]);
                assert(more.take(j) =~= found.take(j));
            } else {
                assert(more.take(j) =~= found);
            }
        }
    }
}

/// Which of the listed entries a draw falls on.
proof fn lemma_draw_falls_on_one(found: Seq<(int, int)>, from: int, draw: int) -> (at: int)
    requires
        0 <= from <= found.len(),
        0 <= draw < candidate_weight(found) - candidate_weight(found.take(from)),
    ensures
        from <= at < found.len(),
        selected(found, from, draw) == found[at].0,
        candidate_weight(found.take(at)) <= draw + candidate_weight(found.take(from))
            < candidate_weight(found.take(at)) + found[at].1,
    decreases found.len() - from,
{
    if from == found.len() {
        assert(found.take(from) =~= found);
        from
    } else if draw < found[from].1 {
        from
    } else {
        assert(found.take(from + 1).drop_last() =~= found.take(from));
        assert(found.take(from + 1).last() == found[from]);
        lemma_draw_falls_on_one(found, from + 1, draw - found[from].1)
    }
}

/// A roll draws a number below the sum of the weights of the entries that pass their
/// conditions, and selects an entry just where the draw is at least the sum of the
/// weights before it and below that sum with its own weight: so of all the draws, each
/// entry is selected by as many as its weight. With one entry to select from nothing is
/// drawn; with none, none is selected.
pub proof fn law_entry_is_drawn_by_its_weight<R: Random>(
    entries: Seq<LootEntry>,
    context: LootContext,
    random: R,
    place: int,
)
    requires
        forall|i: int|
            0 <= i < entries.len() ==> #[trigger] passes(entries, i, context, random) is Ok,
        tested(entries, entries.len(), context, random).valid(),
        shares_before(entries, entries.len(), context, random) <= i32::MAX,
        0 <= place < entries.len(),
    ensures
        ({
            let state = tested(entries, entries.len(), context, random);
            let total = shares_before(entries, entries.len(), context, random);
            let before = shares_before(entries, place as nat, context, random);
            let own = share(entries, place, context, random);
            let drawn = state.bounded(total);
            let rolled = rolled_entry(entries, context, random);
            let is_place = rolled.0 == Ok::<Option<int>, LootError>(
                Some(place),
            );
            &&& 0 <= before && before + own <= total
            &&& rolled.0 is Ok
            &&& rolled.0->Ok_0 matches Some(other) ==> 0 <= other < entries.len()
            &&& total == 0 ==> rolled.0->Ok_0 is None && rolled.1 == state
            &&& total > 0 ==> rolled.0->Ok_0 is Some
            &&& total > 0 && own == total ==> is_place && rolled.1 == state
            &&& total > 0 && (forall|i: int|
                0 <= i < entries.len() ==> #[trigger] share(entries, i, context, random) < total)
                ==> {
                &&& rolled.1 == drawn.1
                &&& is_place <==> before <= drawn.0 < before + own
            }
        }),
{
    let state = tested(entries, entries.len(), context, random);
    let total = shares_before(entries, entries.len(), context, random);
    let before = shares_before(entries, place as nat, context, random);
    let own = share(entries, place, context, random);
    let after = (place + 1) as nat;
    assert(shares_before(entries, after, context, random) == before + own);
    lemma_shares_grow(entries, place as nat, after, context, random);
    lemma_shares_grow(entries, after, entries.len(), context, random);
    let none = Seq::<(int, int)>::empty();
    assert(lists_shares(none, 0, entries, context, random));
    let found = lemma_candidates_list_shares(entries, 0, none, context, random);
    if found.len() == 0 {
        assert(total == 0);
    } else {
        let first = found[0];
        assert(found.take(0) =~= Seq::<(int, int)>::empty());
        lemma_shares_grow(entries, (first.0 + 1) as nat, entries.len(), context, random);
        assert(shares_before(entries, (first.0 + 1) as nat, context, random) == shares_before(
            entries,
            first.0 as nat,
            context,
            random,
        ) + first.1);
        lemma_shares_grow(entries, first.0 as nat, first.0 as nat, context, random);
        assert(total > 0);
        if found.len() == 1 {
            assert(found.drop_last() =~= found.take(0));
            assert(share(entries, first.0, context, random) == total);
            if own == total {
                let j = lemma_place_of_share(found, place, entries, context, random);
                assert(found[j].0 == place);
            }
        } else {
            state.law_draws_stay_in_range(total);
            let draw = state.bounded(total).0;
            let at = lemma_draw_falls_on_one(found, 0, draw);
            let chosen = found[at].0;
            assert(shares_before(entries, (chosen + 1) as nat, context, random) == shares_before(
                entries,
                chosen as nat,
                context,
                random,
            ) + found[at].1);
            if place < chosen {
                lemma_shares_grow(entries, after, chosen as nat, context, random);
            } else if place > chosen {
                lemma_shares_grow(entries, (chosen + 1) as nat, place as nat, context, random);
            }
            if own == total {
                let j = lemma_place_of_share(found, place, entries, context, random);
                let k: int = if j == 0 {
                    1
                } else {
                    0
                };
                let other = found[k].0;
                lemma_two_places(found, j, k, entries, context, random);
                assert(shares_before(entries, (other + 1) as nat, context, random) == shares_before(
                    entries,
                    other as nat,
                    context,
                    random,
                ) + found[k].1);
                lemma_shares_grow(entries, (other + 1) as nat, entries.len(), context, random);
                if other < place {
                    lemma_shares_grow(entries, (other + 1) as nat, place as nat, context, random);
                    lemma_shares_grow(entries, other as nat, other as nat, context, random);
                } else {
                    lemma_shares_grow(entries, after, other as nat, context, random);
                }
            }
        }
    }
}

/// An entry that has a share is listed.
proof fn lemma_place_of_share<R: Random>(
    found: Seq<(int, int)>,
    place: int,
    entries: Seq<LootEntry>,
    context: LootContext,
    random: R,
) -> (at: int)
    requires
        lists_shares(found, entries.len(), entries, context, random),
        0 <= place < entries.len(),
        share(entries, place, context, random) > 0,
    ensures
        0 <= at < found.len(),
        found[at].0 == place,
{
    let before = shares_before(entries, place as nat, context, random);
    let after = (place + 1) as nat;
    assert(shares_before(entries, after, context, random) == before + share(
        entries,
        place,
        context,
        random,
    ));
    lemma_shares_grow(entries, place as nat, after, context, random);
    lemma_shares_grow(entries, after, entries.len(), context, random);
    assert(candidate_weight(found.take(0)) == 0);
    let at = lemma_draw_falls_on_one(found, 0, before);
    let chosen = found[at].0;
    assert(shares_before(entries, (chosen + 1) as nat, context, random) == shares_before(
        entries,
        chosen as nat,
        context,
        random,
    ) + found[at].1);
    if place < chosen {
        lemma_shares_grow(entries, after, chosen as nat, context, random);
    } else if place > chosen {
        lemma_shares_grow(entries, (chosen + 1) as nat, place as nat, context, random);
    }
    at
}

/// Two listed entries stand at different places.
proof fn lemma_two_places<R: Random>(
    found: Seq<(int, int)>,
    j: int,
    k: int,
    entries: Seq<LootEntry>,
    context: LootContext,
    random: R,
)
    requires
        lists_shares(found, entries.len(), entries, context, random),
        0 <= j < found.len(),
        0 <= k < found.len(),
        j != k,
    ensures
        found[j].0 != found[k].0,
{
    let low = if j < k {
        j
    } else {
        k
    };
    let high = if j < k {
        k
    } else {
        j
    };
    lemma_weights_grow(found, low + 1, high);
    assert(found.take(low + 1).drop_last() =~= found.take(low));
    assert(found.take(low + 1).last() == found[low]);
    assert(found[low].1 > 0);
    assert(found[high].1 > 0);
}

proof fn lemma_weights_grow(found: Seq<(int, int)>, low: int, high: int)
    requires
        0 <= low <= high <= found.len(),
        forall|j: int| 0 <= j < found.len() ==> (#[trigger] found[j]).1 > 0,
    ensures
        candidate_weight(found.take(low)) <= candidate_weight(found.take(high)),
    decreases high - low,
{
    if low < high {
        lemma_weights_grow(found, low, high - 1);
        assert(found.take(high).drop_last() =~= found.take(high - 1));
        assert(found.take(high).last() == found[high - 1]);
    }
}

/// A roll fails with the error of the first entry whose conditions cannot be tested,
/// and tests nothing behind it.
pub proof fn law_failed_condition_fails_the_roll<R: Random>(
    entries: Seq<LootEntry>,
    context: LootContext,
    random: R,
    place: int,
)
    requires
        0 <= place < entries.len(),
        passes(entries, place, context, random) is Err,
        forall|i: int|
            0 <= i < place ==> #[trigger] passes(entries, i, context, random) is Ok,
    ensures
        rolled_entry(entries, context, random) == (
            Err::<Option<int>, LootError>(
                passes(entries, place, context, random)->Err_0,
            ),
            tested(entries, (place + 1) as nat, context, random),
        ),
{
    lemma_candidates_fail(entries, 0, Seq::empty(), context, random, place);
}

proof fn lemma_candidates_fail<R: Random>(
    entries: Seq<LootEntry>,
    from: nat,
    found: Seq<(int, int)>,
    context: LootContext,
    random: R,
    place: int,
)
    requires
        from <= place < entries.len(),
        passes(entries, place, context, random) is Err,
        forall|i: int|
            0 <= i < place ==> #[trigger] passes(entries, i, context, random) is Ok,
    ensures
        candidates(entries, from as int, found, context, tested(entries, from, context, random))
            == (
            Err::<Seq<(int, int)>, LootError>(
                passes(entries, place, context, random)->Err_0,
            ),
            tested(entries, (place + 1) as nat, context, random),
        ),
    decreases place - from,
{
    assert(tested(entries, (from + 1) as nat, context, random) == all_hold(
        entries[from as int].spec_conditions(),
        context,
        tested(entries, from, context, random),
    ).1);
    if from < place {
        assert(passes(entries, from as int, context, random) is Ok);
        let weight = entries[from as int].spec_effective_weight(context.luck as int);
        lemma_candidates_fail(
            entries,
            (from + 1) as nat,
            found.push((from as int, weight)),
            context,
            random,
            place,
        );
        lemma_candidates_fail(entries, (from + 1) as nat, found, context, random, place);
    }
}

/// An entry's weight at some luck is its own weight with its quality added once for
/// each point of luck, rounded down; it does not fall below nothing. Luck is counted in
/// parts of a point.
pub proof fn law_luck_adds_quality_to_weight(entry: LootEntry, luck: int)
    ensures
        ({
            let parts: int = 0x100_0000;
            let exact = entry.spec_weight() * parts + entry.spec_quality() * luck;
            let weight = entry.spec_effective_weight(luck);
            &&& exact < 0 ==> weight == 0
            &&& 0 <= exact < (i32::MAX + 1) * parts ==> weight * parts <= exact < (weight + 1) * parts
            &&& exact >= (i32::MAX + 1) * parts ==> weight == i32::MAX
            &&& luck == 0 && entry.spec_weight() >= 0 ==> weight == entry.spec_weight()
        }),
{
    assert(luck == 0 ==> entry.spec_quality() * luck == 0);
}

/// A pool's bonus rolls are its rolls for each point of luck times the luck, rounded
/// down.
pub proof fn law_luck_adds_rolls(pool: LootPool, luck: int)
    requires
        -0x8000_0000 * 0x1_0000_0000_0000 <= pool.bonus_rolls * luck < 0x8000_0000
            * 0x1_0000_0000_0000,
    ensures
        whole_product(pool.bonus_rolls as int, luck) * 0x1_0000_0000_0000 <= pool.bonus_rolls
            * luck < (whole_product(pool.bonus_rolls as int, luck) + 1) * 0x1_0000_0000_0000,
        luck == 0 ==> whole_product(pool.bonus_rolls as int, luck) == 0,
{
    assert(luck == 0 ==> pool.bonus_rolls * luck == 0);
}

/// Rolling a pool some number of times and some further times is rolling it as often as
/// both together, and rolling it once gives the items of one roll.
pub proof fn law_rolls_follow_each_other<R: Random, M: ExplorationMapResolver>(
    pool: LootPool,
    first: nat,
    second: nat,
    result: Seq<Stack>,
    context: LootContext,
    state: Eval<R, M>,
    depth: nat,
)
    ensures
        rolled(pool, (first + second) as int, result, context, state, depth) == match rolled(
            pool,
            first as int,
            result,
            context,
            state,
            depth,
        ) {
            (Ok(()), items, after) => rolled(pool, second as int, items, context, after, depth),
            failed => failed,
        },
        rolled(pool, 0, result, context, state, depth) == (
            Ok::<(), LootError>(()),
            result,
            state,
        ),
        rolled(pool, 1, result, context, state, depth) == roll_items(
            pool,
            result,
            context,
            state,
            depth,
        ),
    decreases first,
{
    let once = roll_items(pool, result, context, state, depth);
    if once.0 is Ok {
        assert(rolled(pool, 0, once.1, context, once.2, depth) == (
            Ok::<(), LootError>(()),
            once.1,
            once.2,
        ));
        assert(once.0->Ok_0 == ());
        assert(once == (Ok::<(), LootError>(()), once.1, once.2));
    }
    if first > 0 {
        if once.0 is Ok {
            law_rolls_follow_each_other(
                pool,
                (first - 1) as nat,
                second,
                once.1,
                context,
                once.2,
                depth,
            );
        }
    }
}

/// A group uses all its children, one after another: a group of two lists of children
/// yields what the group of the first yields and then that of the second.
pub proof fn law_group_uses_every_child<R: Random, M: ExplorationMapResolver>(
    first: Seq<LootEntry>,
    second: Seq<LootEntry>,
    result: Seq<Stack>,
    context: LootContext,
    state: Eval<R, M>,
    depth: nat,
)
    ensures
        group_items(first + second, false, result, context, state, depth) == match group_items(
            first,
            false,
            result,
            context,
            state,
            depth,
        ) {
            (Ok(()), items, after) => group_items(second, false, items, context, after, depth),
            failed => failed,
        },
    decreases first.len(),
{
    if first.len() == 0 {
        assert(first + second =~= second);
    } else {
        let all = first + second;
        assert(all[0] == first[0]);
        assert(all.drop_first() =~= first.drop_first() + second);
        match all_hold(first[0].spec_conditions(), context, state.random) {
            (Ok(true), random) => {
                let own = entry_items(first[0], result, context, state.with_random(random), depth);
                if own.0 is Ok {
                    law_group_uses_every_child(
                        first.drop_first(),
                        second,
                        own.1,
                        context,
                        own.2,
                        depth,
                    );
                }
            },
            (Ok(false), random) => {
                law_group_uses_every_child(
                    first.drop_first(),
                    second,
                    result,
                    context,
                    state.with_random(random),
                    depth,
                );
            },
            (Err(error), random) => {},
        }
    }
}

/// A child that passes its conditions yields the same in a group, in a sequence and
/// among alternatives where it stands alone. One that does not pass yields nothing.
pub proof fn law_single_child_yields_its_items<R: Random, M: ExplorationMapResolver>(
    child: LootEntry,
    stops: bool,
    result: Seq<Stack>,
    context: LootContext,
    state: Eval<R, M>,
    depth: nat,
)
    ensures
        ({
            let tried = all_hold(child.spec_conditions(), context, state.random);
            let own = entry_items(child, result, context, state.with_random(tried.1), depth);
            let grouped = group_items(seq![child], stops, result, context, state, depth);
            let chosen = alternative_items(seq![child], result, context, state, depth);
            &&& tried.0 matches Ok(holds) ==> if holds {
                grouped == own && chosen == own
            } else {
                &&& grouped == (Ok::<(), LootError>(()), result, state.with_random(tried.1))
                &&& chosen == grouped
            }
            &&& tried.0 matches Err(error) ==> grouped.0 == Err::<(), LootError>(error)
                && grouped.1 == result && chosen == grouped
        }),
{
    let rest = seq![child].drop_first();
    assert(rest.len() == 0);
    assert(seq![child][0] == child);
    let tried = all_hold(child.spec_conditions(), context, state.random);
    let own = entry_items(child, result, context, state.with_random(tried.1), depth);
    if own.0 is Ok {
        assert(own.0->Ok_0 == ());
        assert(own == (Ok::<(), LootError>(()), own.1, own.2));
    }
    assert(group_items(rest, stops, own.1, context, own.2, depth) == (
        Ok::<(), LootError>(()),
        own.1,
        own.2,
    ));
    assert(group_items(rest, stops, result, context, state.with_random(tried.1), depth) == (
        Ok::<(), LootError>(()),
        result,
        state.with_random(tried.1),
    ));
    assert(alternative_items(rest, own.1, context, own.2, depth) == (
        Ok::<(), LootError>(()),
        own.1,
        own.2,
    ));
    assert(alternative_items(rest, result, context, state.with_random(tried.1), depth) == (
        Ok::<(), LootError>(()),
        result,
        state.with_random(tried.1),
    ));
}

/// The number of children before the first one that does not pass its conditions, or
/// that fails.
pub open spec fn leading<R: Random, M: ExplorationMapResolver>(
    children: Seq<LootEntry>,
    result: Seq<Stack>,
    context: LootContext,
    state: Eval<R, M>,
    depth: nat,
) -> nat
    decreases children.len(),
{
    if children.len() == 0 {
        0
    } else {
        match all_hold(children[0].spec_conditions(), context, state.random) {
            (Ok(true), random) => match entry_items(
                children[0],
                result,
                context,
                state.with_random(random),
                depth,
            ) {
                (Ok(()), items, after) => 1 + leading(
                    children.drop_first(),
                    items,
                    context,
                    after,
                    depth,
                ),
                _ => 0,
            },
            _ => 0,
        }
    }
}

/// A sequence ends at the first child that does not pass its conditions: it yields what
/// the group of the children before that one yields, and differs from the group of all
/// its children by nothing where they all pass.
pub proof fn law_sequence_stops_at_the_first_refusal<R: Random, M: ExplorationMapResolver>(
    children: Seq<LootEntry>,
    result: Seq<Stack>,
    context: LootContext,
    state: Eval<R, M>,
    depth: nat,
)
    ensures
        ({
            let count = leading(children, result, context, state, depth);
            let sequence = group_items(children, true, result, context, state, depth);
            let group = group_items(
                children.take(count as int),
                false,
                result,
                context,
                state,
                depth,
            );
            &&& count <= children.len()
            &&& group.0 is Ok
            &&& sequence.0 is Ok ==> sequence.1 == group.1
            &&& count == children.len() ==> sequence == group
        }),
    decreases children.len(),
{
    let count = leading(children, result, context, state, depth);
    if children.len() > 0 && count > 0 {
        let tried = all_hold(children[0].spec_conditions(), context, state.random);
        let own = entry_items(children[0], result, context, state.with_random(tried.1), depth);
        let rest = children.drop_first();
        law_sequence_stops_at_the_first_refusal(rest, own.1, context, own.2, depth);
        assert(children.take(count as int)[0] == children[0]);
        assert(children.take(count as int).drop_first() =~= rest.take(count - 1));
    }
}

/// Only the first alternative that yields anything is used: those behind it change
/// nothing. Those behind alternatives that yield nothing are tried as if they stood
/// alone.
pub proof fn law_first_alternative_is_used<R: Random, M: ExplorationMapResolver>(
    first: Seq<LootEntry>,
    second: Seq<LootEntry>,
    result: Seq<Stack>,
    context: LootContext,
    state: Eval<R, M>,
    depth: nat,
)
    ensures
        ({
            let alone = alternative_items(first, result, context, state, depth);
            let both = alternative_items(first + second, result, context, state, depth);
            if alone.0 is Err || alone.1.len() > result.len() {
                both == alone
            } else {
                both == alternative_items(second, alone.1, context, alone.2, depth)
            }
        }),
    decreases first.len(),
{
    if first.len() == 0 {
        assert(first + second =~= second);
    } else {
        let all = first + second;
        let rest = first.drop_first();
        assert(all[0] == first[0]);
        assert(all.drop_first() =~= rest + second);
        match all_hold(first[0].spec_conditions(), context, state.random) {
            (Ok(true), random) => {
                let own = entry_items(first[0], result, context, state.with_random(random), depth);
                law_entry_keeps_collected_items(
                    first[0],
                    result,
                    context,
                    state.with_random(random),
                    depth,
                );
                if own.0 is Ok && own.1.len() <= result.len() {
                    law_first_alternative_is_used(rest, second, own.1, context, own.2, depth);
                }
            },
            (Ok(false), random) => {
                law_first_alternative_is_used(
                    rest,
                    second,
                    result,
                    context,
                    state.with_random(random),
                    depth,
                );
            },
            (Err(error), random) => {},
        }
    }
}

/// The number of draws below `upto` by which an entry is selected.
pub open spec fn selecting_draws(found: Seq<(int, int)>, place: int, upto: nat) -> int
    decreases upto,
{
    if upto == 0 {
        0
    } else {
        selecting_draws(found, place, (upto - 1) as nat) + if selected(found, 0, upto - 1) == place {
            1int
        } else {
            0
        }
    }
}

/// Of all the draws below the sum of the weights, each entry is selected by exactly as
/// many as its weight.
pub proof fn law_draws_are_shared_by_weight(found: Seq<(int, int)>, at: int)
    requires
        0 <= at < found.len(),
        forall|j: int| 0 <= j < found.len() ==> (#[trigger] found[j]).1 > 0,
        forall|j: int, k: int|
            0 <= j < k < found.len() ==> (#[trigger] found[j]).0 != (#[trigger] found[k]).0,
    ensures
        selecting_draws(found, found[at].0, candidate_weight(found) as nat) == found[at].1,
{
    assert(found.take(found.len() as int) =~= found);
    assert(candidate_weight(found.take(0)) == 0);
    lemma_weights_grow(found, 0, at);
    lemma_weights_grow(found, 0, found.len() as int);
    lemma_weights_grow(found, at + 1, found.len() as int);
    lemma_selecting_draws(found, at, candidate_weight(found));
    assert(found.take(at + 1).drop_last() =~= found.take(at));
    assert(found.take(at + 1).last() == found[at]);
}

proof fn lemma_selecting_draws(found: Seq<(int, int)>, at: int, upto: int)
    requires
        0 <= at < found.len(),
        0 <= upto <= candidate_weight(found),
        forall|j: int| 0 <= j < found.len() ==> (#[trigger] found[j]).1 > 0,
        forall|j: int, k: int|
            0 <= j < k < found.len() ==> (#[trigger] found[j]).0 != (#[trigger] found[k]).0,
    ensures
        ({
            let before = candidate_weight(found.take(at));
            selecting_draws(found, found[at].0, upto as nat) == if upto <= before {
                0
            } else if upto <= before + found[at].1 {
                upto - before
            } else {
                found[at].1
            }
        }),
    decreases upto,
{
    let before = candidate_weight(found.take(at));
    lemma_weights_grow(found, 0, at);
    assert(candidate_weight(found.take(0)) == 0);
    if upto > 0 {
        lemma_selecting_draws(found, at, upto - 1);
        let chosen = lemma_draw_falls_on_one(found, 0, upto - 1);
        if chosen < at {
            lemma_weights_grow(found, chosen + 1, at);
            assert(found.take(chosen + 1).drop_last() =~= found.take(chosen));
            assert(found.take(chosen + 1).last() == found[chosen]);
        } else if chosen > at {
            lemma_weights_grow(found, at + 1, chosen);
            assert(found.take(at + 1).drop_last() =~= found.take(at));
            assert(found.take(at + 1).last() == found[at]);
        }
    }
}

/// A pool whose conditions do not hold yields nothing. One whose conditions hold is
/// rolled as often as the number of its rolls with its bonus for luck says, and without
/// functions yields just what its rolls do.
pub proof fn law_pool_is_rolled_where_its_conditions_hold<R: Random, M: ExplorationMapResolver>(
    pool: LootPool,
    result: Seq<Stack>,
    context: LootContext,
    state: Eval<R, M>,
    depth: nat,
)
    ensures
        ({
            let tried = all_hold(pool.conditions@, context, state.random);
            let count = pool.rolls.integer(stack_of(context.tool), tried.1);
            let bonus = whole_product(pool.bonus_rolls as int, context.luck as int);
            let items = pool_items(pool, result, context, state, depth);
            &&& tried.0 == Ok::<bool, LootError>(false) ==> items == (
                Ok::<(), LootError>(()),
                result,
                state.with_random(tried.1),
            )
            &&& tried.0 == Ok::<bool, LootError>(true) && count.0 is Ok && pool.functions@.len()
                == 0 && i32::MIN <= count.0->Ok_0 <= i32::MAX && i32::MIN <= count.0->Ok_0 + bonus
                <= i32::MAX ==> items == rolled(
                pool,
                count.0->Ok_0 + bonus,
                result,
                context,
                state.with_random(count.1),
                depth,
            )
            &&& tried.0 is Err || tried.0 == Ok::<bool, LootError>(true) && count.0 is Err
                ==> items.0 is Err && items.1 == result
        }),
{
    let tried = all_hold(pool.conditions@, context, state.random);
    let count = pool.rolls.integer(stack_of(context.tool), tried.1);
    let bonus = whole_product(pool.bonus_rolls as int, context.luck as int);
    if tried.0 == Ok::<bool, LootError>(true) && count.0 is Ok && pool.functions@.len() == 0
        && i32::MIN <= count.0->Ok_0 + bonus <= i32::MAX {
        let all = rolled(
            pool,
            count.0->Ok_0 + bonus,
            result,
            context,
            state.with_random(count.1),
            depth,
        );
        if all.0 is Ok {
            assert(all.0->Ok_0 == ());
        }
    }
}

/// The pools of a table follow each other: those of two lists yield what the first yield
/// and behind it what the second do.
pub proof fn law_pools_follow_each_other<R: Random, M: ExplorationMapResolver>(
    first: Seq<LootPool>,
    second: Seq<LootPool>,
    result: Seq<Stack>,
    context: LootContext,
    state: Eval<R, M>,
    depth: nat,
)
    ensures
        pools_items(first + second, result, context, state, depth) == match pools_items(
            first,
            result,
            context,
            state,
            depth,
        ) {
            (Ok(()), items, after) => pools_items(second, items, context, after, depth),
            failed => failed,
        },
        first.len() == 1 ==> pools_items(first, result, context, state, depth) == pool_items(
            first[0],
            result,
            context,
            state,
            depth,
        ),
    decreases first.len(),
{
    if first.len() == 0 {
        assert(first + second =~= second);
    } else {
        assert((first + second)[0] == first[0]);
        assert((first + second).drop_first() =~= first.drop_first() + second);
        let own = pool_items(first[0], result, context, state, depth);
        if own.0 is Ok {
            assert(own.0->Ok_0 == ());
            law_pools_follow_each_other(
                first.drop_first(),
                second,
                own.1,
                context,
                own.2,
                depth,
            );
            if first.len() == 1 {
                assert(pools_items(first.drop_first(), own.1, context, own.2, depth) == (
                    Ok::<(), LootError>(()),
                    own.1,
                    own.2,
                ));
            }
        }
    }
}

/// An entry for an item yields one of it, with the functions of the entry applied, where
/// anything is left; behind the items there are.
pub proof fn law_item_entry_yields_its_item<R: Random, M: ExplorationMapResolver>(
    entry: LootEntry,
    item: Item,
    result: Seq<Stack>,
    context: LootContext,
    state: Eval<R, M>,
    depth: nat,
)
    requires
        entry is Item,
        find(context.registry.items@, entry->Item_name@) == Some(item),
        entry.spec_functions().len() == 0,
    ensures
        ({
            let items = entry_items(entry, result, context, state, depth);
            &&& items.0 is Ok
            &&& items.1.len() == result.len() + 1
            &&& items.1.last().item == entry->Item_name@
            &&& items.1.last().count == 1
            &&& items.1.last().patch == Map::<Id, Change>::empty()
            &&& items.1.drop_last() == result
            &&& items.2 == state
        }),
{
    lemma_find(context.registry.items@, entry->Item_name@);
    let items = entry_items(entry, result, context, state, depth);
    assert(items.1.drop_last() =~= result);
}

/// The registered items of a tag, one for each of its values that is registered, in the
/// order of the tag.
pub proof fn law_tagged_items_are_registered(
    first: Seq<Identifier>,
    second: Seq<Identifier>,
    items: Seq<Item>,
)
    ensures
        tagged_items(first + second, items) == tagged_items(first, items) + tagged_items(
            second,
            items,
        ),
        second.len() == 1 ==> match find(items, second[0]@) {
            Some(item) => tagged_items(second, items) == seq![item] && item.key@ == second[0]@,
            None => tagged_items(second, items).len() == 0,
        },
    decreases second.len(),
{
    if second.len() == 0 {
        assert(first + second =~= first);
        assert(tagged_items(first, items) + tagged_items(second, items) =~= tagged_items(
            first,
            items,
        ));
    } else {
        assert((first + second).drop_last() =~= first + second.drop_last());
        assert((first + second).last() == second.last());
        law_tagged_items_are_registered(first, second.drop_last(), items);
        assert(tagged_items(first + second, items) =~= tagged_items(first, items) + tagged_items(
            second,
            items,
        ));
        if second.len() == 1 {
            assert(tagged_items(second.drop_last(), items) =~= Seq::<Item>::empty());
            lemma_find(items, second[0]@);
            if let Some(item) = find(items, second[0]@) {
                assert(tagged_items(second, items) =~= seq![item]);
            }
        }
    }
}

/// A tag that is expanded yields one of its items, each by as many draws as another; one
/// that is not yields all of them, in order.
pub proof fn law_expanded_tag_yields_one_item<R: Random, M: ExplorationMapResolver>(
    entry: LootEntry,
    tag: Tag,
    result: Seq<Stack>,
    context: LootContext,
    state: Eval<R, M>,
    depth: nat,
)
    requires
        entry is Tag,
        find(context.registry.item_tags@, entry->Tag_name@) == Some(tag),
        entry.spec_functions().len() == 0,
        state.random.valid(),
        0 < tagged_items(tag.values@, context.registry.items@).len() <= i32::MAX,
    ensures
        ({
            let kinds = tagged_items(tag.values@, context.registry.items@);
            let items = entry_items(entry, result, context, state, depth);
            let drawn = state.random.bounded(kinds.len() as int);
            &&& items.0 is Ok
            &&& entry->Tag_expand ==> items.1 == result.push(Stack::of(kinds[drawn.0], 1))
                && items.2.random == drawn.1
            &&& !entry->Tag_expand ==> items.2 == state && items.1.len() == result.len()
                + kinds.len() && forall|i: int|
                0 <= i < kinds.len() ==> items.1[result.len() + i] == Stack::of(
                    #[trigger] kinds[i],
                    1,
                )
        }),
{
    let kinds = tagged_items(tag.values@, context.registry.items@);
    if !entry->Tag_expand {
        lemma_all_dropped(kinds, entry.spec_functions(), result, context, state);
    }
}

proof fn lemma_all_dropped<R: Random, M: ExplorationMapResolver>(
    kinds: Seq<Item>,
    functions: Seq<ConditionalLootFunction>,
    result: Seq<Stack>,
    context: LootContext,
    state: Eval<R, M>,
)
    requires
        functions.len() == 0,
    ensures
        ({
            let items = dropped_all(kinds, functions, result, context, state);
            &&& items.0 is Ok
            &&& items.2 == state
            &&& items.1.len() == result.len() + kinds.len()
            &&& forall|i: int| 0 <= i < result.len() ==> #[trigger] items.1[i] == result[i]
            &&& forall|i: int|
                0 <= i < kinds.len() ==> items.1[result.len() + i] == Stack::of(
                    #[trigger] kinds[i],
                    1,
                )
        }),
    decreases kinds.len(),
{
    if kinds.len() > 0 {
        let more = result.push(Stack::of(kinds[0], 1));
        let rest = kinds.drop_first();
        lemma_all_dropped(rest, functions, more, context, state);
        let items = dropped_all(kinds, functions, result, context, state);
        assert(items == dropped_all(rest, functions, more, context, state));
        assert forall|i: int| 0 <= i < result.len() implies #[trigger] items.1[i] == result[i] by {
            assert(more[i] == result[i]);
        }
        assert forall|i: int| 0 <= i < kinds.len() implies items.1[result.len() + i] == Stack::of(
            #[trigger] kinds[i],
            1,
        ) by {
            if i > 0 {
                assert(rest[i - 1] == kinds[i]);
                assert(more.len() + (i - 1) == result.len() + i);
            } else {
                assert(items.1[result.len() as int] == more[result.len() as int]);
            }
        }
    }
}

} // verus!
