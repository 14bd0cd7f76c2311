//! What loot tables generate.
use vstd::prelude::*;

use crate::ident::Identifier;
use crate::item_stack::{stacks_of, Item, ItemStack, Stack};
use crate::keyed::{by_key, find};
use crate::loot_table::conditions::{all_hold, sound_conditions, test_all, LootContext};
use crate::loot_table::entries::{floor_div, whole_product, LootEntry, LootPool, LootTable};
use crate::loot_table::error::{LootError, LootResult};
use crate::loot_table::functions::{
    applied_all, apply_all, sound_functions, ConditionalLootFunction, ExplorationMapResolver,
    Eval, LootState,
};
use crate::loot_table::number::stack_of;
use crate::random::{Random, UNIT_STEPS};
use crate::registry::Registry;

verus! {

/// The sum of the weights that entries have at some luck.
pub open spec fn weight_sum(entries: Seq<LootEntry>, luck: int) -> int
    decreases entries.len(),
{
    if entries.len() == 0 {
        0
    } else {
        weight_sum(entries.drop_last(), luck) + entries.last().spec_effective_weight(luck)
    }
}

/// A table can be evaluated: the numbers in it can be drawn, the weights of each of
/// its pools add up to what fits, and no chain of table references that starts in
/// it is longer than `depth`.
pub open spec fn table_ready(table: LootTable, registry: Registry, luck: int, depth: nat) -> bool
    decreases depth, table.pools@, 1int,
{
    sound_functions(table.functions@) && pools_ready(table.pools@, registry, luck, depth)
}

pub open spec fn pools_ready(
    pools: Seq<LootPool>,
    registry: Registry,
    luck: int,
    depth: nat,
) -> bool
    decreases depth, pools, 0int,
{
    forall|i: int|
        0 <= i < pools.len() ==> pool_ready(#[trigger] pools[i], registry, luck, depth)
}

pub open spec fn pool_ready(pool: LootPool, registry: Registry, luck: int, depth: nat) -> bool
    decreases depth, pool, 0int,
{
    &&& sound_conditions(pool.conditions@)
    &&& pool.rolls.sound()
    &&& sound_functions(pool.functions@)
    &&& weight_sum(pool.entries@, luck) <= i32::MAX
    &&& entries_ready(pool.entries@, registry, luck, depth)
}

pub open spec fn entries_ready(
    entries: Seq<LootEntry>,
    registry: Registry,
    luck: int,
    depth: nat,
) -> bool
    decreases depth, entries, 0int,
{
    forall|i: int|
        0 <= i < entries.len() ==> entry_ready(#[trigger] entries[i], registry, luck, depth)
}

pub open spec fn entry_ready(entry: LootEntry, registry: Registry, luck: int, depth: nat) -> bool
    decreases depth, entry, 0int,
{
    &&& sound_conditions(entry.spec_conditions())
    &&& sound_functions(entry.spec_functions())
    &&& match entry {
        LootEntry::LootTableRef { name, .. } => match find(registry.loot_tables@, name@) {
            Some(table) => depth > 0 && table_ready(table, registry, luck, (depth - 1) as nat),
            None => true,
        },
        LootEntry::InlineLootTable { pools, .. } => pools_ready(pools@, registry, luck, depth),
        LootEntry::Alternatives { children, .. } => entries_ready(
            children@,
            registry,
            luck,
            depth,
        ),
        LootEntry::Group { children, .. } => entries_ready(children@, registry, luck, depth),
        LootEntry::Sequence { children, .. } => entries_ready(children@, registry, luck, depth),
        _ => true,
    }
}

/// The stacks that hold something.
pub open spec fn remaining(stacks: Seq<Stack>) -> Seq<Stack> {
    stacks.filter(|stack: Stack| stack.count > 0)
}

/// Every stack holds something.
pub open spec fn all_hold_something(stacks: Seq<Stack>) -> bool {
    forall|i: int| 0 <= i < stacks.len() ==> (#[trigger] stacks[i]).count > 0
}

/// A list with further stacks behind those there were, each of which holds something.
pub open spec fn extends(after: Seq<Stack>, before: Seq<Stack>) -> bool {
    &&& before.is_prefix_of(after)
    &&& all_hold_something(after.skip(before.len() as int))
}

/// Items after functions were applied to each of them in turn, behind the items
/// that were done before, and the state after them.
pub open spec fn modified<R: Random, M: ExplorationMapResolver>(
    functions: Seq<ConditionalLootFunction>,
    done: Seq<Stack>,
    items: Seq<Stack>,
    context: LootContext,
    state: Eval<R, M>,
) -> (LootResult<()>, Seq<Stack>, Eval<R, M>)
    decreases items.len(),
{
    if items.len() == 0 {
        (Ok(()), done, state)
    } else {
        match applied_all(functions, items[0], context, state) {
            (Ok(()), item, state) => modified(
                functions,
                done.push(item),
                items.drop_first(),
                context,
                state,
            ),
            (Err(error), item, state) => (
                Err(error),
                done.push(item) + items.drop_first(),
                state,
            ),
        }
    }
}

/// A new item with functions applied, behind the items there are, where anything
/// of it is left, and the state after that.
pub open spec fn dropped<R: Random, M: ExplorationMapResolver>(
    item: Item,
    functions: Seq<ConditionalLootFunction>,
    result: Seq<Stack>,
    context: LootContext,
    state: Eval<R, M>,
) -> (LootResult<()>, Seq<Stack>, Eval<R, M>) {
    match applied_all(functions, Stack::of(item, 1), context, state) {
        (Ok(()), stack, state) => (
            Ok(()),
            if stack.count > 0 {
                result.push(stack)
            } else {
                result
            },
            state,
        ),
        (Err(error), _, state) => (Err(error), result, state),
    }
}

/// New items, one after another, and the state after them.
pub open spec fn dropped_all<R: Random, M: ExplorationMapResolver>(
    items: Seq<Item>,
    functions: Seq<ConditionalLootFunction>,
    result: Seq<Stack>,
    context: LootContext,
    state: Eval<R, M>,
) -> (LootResult<()>, Seq<Stack>, Eval<R, M>)
    decreases items.len(),
{
    if items.len() == 0 {
        (Ok(()), result, state)
    } else {
        match dropped(items[0], functions, result, context, state) {
            (Ok(()), result, state) => dropped_all(
                items.drop_first(),
                functions,
                result,
                context,
                state,
            ),
            failed => failed,
        }
    }
}

/// The registered items of a tag.
pub open spec fn tagged_items(keys: Seq<Identifier>, items: Seq<Item>) -> Seq<Item>
    decreases keys.len(),
{
    if keys.len() == 0 {
        Seq::empty()
    } else {
        let before = tagged_items(keys.drop_last(), items);
        match find(items, keys.last()@) {
            Some(item) => before.push(item),
            None => before,
        }
    }
}

/// The places and weights of the entries that can be drawn, behind those found
/// before, and the state after their conditions were tested.
pub open spec fn candidates<R: Random>(
    entries: Seq<LootEntry>,
    from: int,
    found: Seq<(int, int)>,
    context: LootContext,
    random: R,
) -> (LootResult<Seq<(int, int)>>, R)
    decreases entries.len() - from,
{
    if from >= entries.len() || from < 0 {
        (Ok(found), random)
    } else {
        let weight = entries[from].spec_effective_weight(context.luck as int);
        match all_hold(entries[from].spec_conditions(), context, random) {
            (Ok(true), random) => candidates(
                entries,
                from + 1,
                if weight > 0 {
                    found.push((from, weight))
                } else {
                    found
                },
                context,
                random,
            ),
            (Ok(false), random) => candidates(entries, from + 1, found, context, random),
            (Err(error), random) => (Err(error), random),
        }
    }
}

pub open spec fn candidate_weight(found: Seq<(int, int)>) -> int
    decreases found.len(),
{
    if found.len() == 0 {
        0
    } else {
        candidate_weight(found.drop_last()) + found.last().1
    }
}

/// The place that a draw below the sum of the weights falls on; the first one where
/// it falls on none.
pub open spec fn selected(found: Seq<(int, int)>, from: int, draw: int) -> int
    decreases found.len() - from,
{
    if from >= found.len() || from < 0 {
        found[0].0
    } else if draw < found[from].1 {
        found[from].0
    } else {
        selected(found, from + 1, draw - found[from].1)
    }
}

/// The place of the entry that a roll selects, where it selects one, and the state after it.
pub open spec fn rolled_entry<R: Random>(
    entries: Seq<LootEntry>,
    context: LootContext,
    random: R,
) -> (LootResult<Option<int>>, R) {
    match candidates(entries, 0, Seq::empty(), context, random) {
        (Ok(found), random) => if found.len() == 0 {
            (Ok(None), random)
        } else if found.len() == 1 {
            (Ok(Some(found[0].0)), random)
        } else {
            let drawn = random.bounded(candidate_weight(found));
            (Ok(Some(selected(found, 0, drawn.0))), drawn.1)
        },
        (Err(error), random) => (Err(error), random),
    }
}

/// The items of a table, and the state after they were generated.
pub open spec fn table_items<R: Random, M: ExplorationMapResolver>(
    table: LootTable,
    context: LootContext,
    state: Eval<R, M>,
    depth: nat,
) -> (LootResult<Seq<Stack>>, Eval<R, M>)
    decreases depth, table.pools@, 1int, 0int,
{
    match pools_items(table.pools@, Seq::empty(), context, state, depth) {
        (Ok(()), items, state) => if table.functions@.len() == 0 {
            (Ok(items), state)
        } else {
            match modified(table.functions@, Seq::empty(), items, context, state) {
                (Ok(()), items, state) => (Ok(remaining(items)), state),
                (Err(error), _, state) => (Err(error), state),
            }
        },
        (Err(error), _, state) => (Err(error), state),
    }
}

/// The items of pools behind the items there are, and the state after them.
pub open spec fn pools_items<R: Random, M: ExplorationMapResolver>(
    pools: Seq<LootPool>,
    result: Seq<Stack>,
    context: LootContext,
    state: Eval<R, M>,
    depth: nat,
) -> (LootResult<()>, Seq<Stack>, Eval<R, M>)
    decreases depth, pools, 0int, 0int,
{
    if pools.len() == 0 {
        (Ok(()), result, state)
    } else {
        match pool_items(pools[0], result, context, state, depth) {
            (Ok(()), result, state) => pools_items(
                pools.drop_first(),
                result,
                context,
                state,
                depth,
            ),
            failed => failed,
        }
    }
}

/// The items of a pool behind the items there are, and the state after them. A pool
/// that has functions drops all the items of which nothing is left.
pub open spec fn pool_items<R: Random, M: ExplorationMapResolver>(
    pool: LootPool,
    result: Seq<Stack>,
    context: LootContext,
    state: Eval<R, M>,
    depth: nat,
) -> (LootResult<()>, Seq<Stack>, Eval<R, M>)
    decreases depth, pool, 2int, 0int,
{
    match all_hold(pool.conditions@, context, state.random) {
        (Ok(true), random) => match pool.rolls.integer(stack_of(context.tool), random) {
            (Ok(rolls), random) => {
                let extra = whole_product(pool.bonus_rolls as int, context.luck as int) as i32;
                let times = (rolls as i32).wrapping_add(extra) as int;
                match rolled(pool, times, result, context, state.with_random(random), depth) {
                    (Ok(()), items, state) => if pool.functions@.len() == 0 {
                        (Ok(()), items, state)
                    } else {
                        match modified(
                            pool.functions@,
                            items.take(result.len() as int),
                            items.skip(result.len() as int),
                            context,
                            state,
                        ) {
                            (Ok(()), items, state) => (Ok(()), remaining(items), state),
                            failed => failed,
                        }
                    },
                    failed => failed,
                }
            },
            (Err(error), random) => (Err(error), result, state.with_random(random)),
        },
        (Ok(false), random) => (Ok(()), result, state.with_random(random)),
        (Err(error), random) => (Err(error), result, state.with_random(random)),
    }
}

/// The items of `times` rolls behind the items there are, and the state after them.
pub open spec fn rolled<R: Random, M: ExplorationMapResolver>(
    pool: LootPool,
    times: int,
    result: Seq<Stack>,
    context: LootContext,
    state: Eval<R, M>,
    depth: nat,
) -> (LootResult<()>, Seq<Stack>, Eval<R, M>)
    decreases depth, pool, 1int, times,
{
    if times <= 0 {
        (Ok(()), result, state)
    } else {
        match roll_items(pool, result, context, state, depth) {
            (Ok(()), result, state) => rolled(pool, times - 1, result, context, state, depth),
            failed => failed,
        }
    }
}

/// The items of one roll behind the items there are, and the state after it.
pub open spec fn roll_items<R: Random, M: ExplorationMapResolver>(
    pool: LootPool,
    result: Seq<Stack>,
    context: LootContext,
    state: Eval<R, M>,
    depth: nat,
) -> (LootResult<()>, Seq<Stack>, Eval<R, M>)
    decreases depth, pool, 0int, 0int,
{
    match rolled_entry(pool.entries@, context, state.random) {
        (Ok(Some(place)), random) => if 0 <= place < pool.entries@.len() {
            entry_items(
                pool.entries@[place],
                result,
                context,
                state.with_random(random),
                depth,
            )
        } else {
            (Ok(()), result, state.with_random(random))
        },
        (Ok(None), random) => (Ok(()), result, state.with_random(random)),
        (Err(error), random) => (Err(error), result, state.with_random(random)),
    }
}

/// Items with an entry's functions applied, behind the items there are, where
/// anything of them is left.
pub open spec fn appended<R: Random, M: ExplorationMapResolver>(
    functions: Seq<ConditionalLootFunction>,
    result: Seq<Stack>,
    items: Seq<Stack>,
    context: LootContext,
    state: Eval<R, M>,
) -> (LootResult<()>, Seq<Stack>, Eval<R, M>) {
    match modified(functions, Seq::empty(), items, context, state) {
        (Ok(()), items, state) => (Ok(()), result + remaining(items), state),
        (Err(error), _, state) => (Err(error), result, state),
    }
}

/// The items of an entry behind the items there are, and the state after them.
pub open spec fn entry_items<R: Random, M: ExplorationMapResolver>(
    entry: LootEntry,
    result: Seq<Stack>,
    context: LootContext,
    state: Eval<R, M>,
    depth: nat,
) -> (LootResult<()>, Seq<Stack>, Eval<R, M>)
    decreases depth, entry, 0int, 0int,
{
    let registry = context.registry;
    match entry {
        LootEntry::Item { name, functions, .. } => match find(registry.items@, name@) {
            Some(item) => dropped(item, functions@, result, context, state),
            None => (
                Err(LootError::UnknownRegistryValue { registry: "item", key: name }),
                result,
                state,
            ),
        },
        LootEntry::LootTableRef { name, functions, .. } => match find(
            registry.loot_tables@,
            name@,
        ) {
            Some(table) => if depth == 0 {
                (
                    Err(LootError::UnsupportedEntry("recursive loot-table reference")),
                    result,
                    state,
                )
            } else {
                match table_items(table, context, state, (depth - 1) as nat) {
                    (Ok(items), state) => appended(functions@, result, items, context, state),
                    (Err(error), state) => (Err(error), result, state),
                }
            },
            None => (
                Err(LootError::UnknownRegistryValue { registry: "loot table", key: name }),
                result,
                state,
            ),
        },
        LootEntry::InlineLootTable { pools, functions, .. } => match pools_items(
            pools@,
            Seq::empty(),
            context,
            state,
            depth,
        ) {
            (Ok(()), items, state) => appended(functions@, result, items, context, state),
            (Err(error), _, state) => (Err(error), result, state),
        },
        LootEntry::Tag { name, expand, functions, .. } => match find(registry.item_tags@, name@) {
            Some(tag) => {
                let items = tagged_items(tag.values@, registry.items@);
                if !expand {
                    dropped_all(items, functions@, result, context, state)
                } else if items.len() == 0 || items.len() > i32::MAX {
                    (Ok(()), result, state)
                } else {
                    let drawn = state.random.bounded(items.len() as int);
                    dropped(
                        items[drawn.0],
                        functions@,
                        result,
                        context,
                        state.with_random(drawn.1),
                    )
                }
            },
            None => (
                Err(LootError::UnknownRegistryTag { registry: "item", key: name }),
                result,
                state,
            ),
        },
        LootEntry::Alternatives { children, .. } => alternative_items(
            children@,
            result,
            context,
            state,
            depth,
        ),
        LootEntry::Group { children, .. } => group_items(
            children@,
            false,
            result,
            context,
            state,
            depth,
        ),
        LootEntry::Sequence { children, .. } => group_items(
            children@,
            true,
            result,
            context,
            state,
            depth,
        ),
        LootEntry::Empty { .. } => (Ok(()), result, state),
        LootEntry::Dynamic { .. } => (
            Err(LootError::UnsupportedEntry("dynamic")),
            result,
            state,
        ),
        LootEntry::Slots { .. } => (Err(LootError::UnsupportedEntry("slots")), result, state),
    }
}

/// The items of the first child that passes its conditions and yields any, behind
/// the items there are, and the state after the children that were tried.
pub open spec fn alternative_items<R: Random, M: ExplorationMapResolver>(
    children: Seq<LootEntry>,
    result: Seq<Stack>,
    context: LootContext,
    state: Eval<R, M>,
    depth: nat,
) -> (LootResult<()>, Seq<Stack>, Eval<R, M>)
    decreases depth, children, 0int, 0int,
{
    if children.len() == 0 {
        (Ok(()), result, state)
    } else {
        match all_hold(children[0].spec_conditions(), context, state.random) {
            (Ok(true), random) => match entry_items(
                children[0],
                result,
                context,
                state.with_random(random),
                depth,
            ) {
                (Ok(()), items, state) => if items.len() > result.len() {
                    (Ok(()), items, state)
                } else {
                    alternative_items(children.drop_first(), items, context, state, depth)
                },
                failed => failed,
            },
            (Ok(false), random) => alternative_items(
                children.drop_first(),
                result,
                context,
                state.with_random(random),
                depth,
            ),
            (Err(error), random) => (Err(error), result, state.with_random(random)),
        }
    }
}

/// The items of the children that pass their conditions, behind the items there
/// are, and the state after them. With `stops`, a child that does not pass ends it.
pub open spec fn group_items<R: Random, M: ExplorationMapResolver>(
    children: Seq<LootEntry>,
    stops: bool,
    result: Seq<Stack>,
    context: LootContext,
    state: Eval<R, M>,
    depth: nat,
) -> (LootResult<()>, Seq<Stack>, Eval<R, M>)
    decreases depth, children, 0int, 0int,
{
    if children.len() == 0 {
        (Ok(()), result, state)
    } else {
        match all_hold(children[0].spec_conditions(), context, state.random) {
            (Ok(true), random) => match entry_items(
                children[0],
                result,
                context,
                state.with_random(random),
                depth,
            ) {
                (Ok(()), items, state) => group_items(
                    children.drop_first(),
                    stops,
                    items,
                    context,
                    state,
                    depth,
                ),
                failed => failed,
            },
            (Ok(false), random) => if stops {
                (Ok(()), result, state.with_random(random))
            } else {
                group_items(
                    children.drop_first(),
                    stops,
                    result,
                    context,
                    state.with_random(random),
                    depth,
                )
            },
            (Err(error), random) => (Err(error), result, state.with_random(random)),
        }
    }
}

/// Drops the stacks of which nothing is left.
fn keep_remaining(items: &mut Vec<ItemStack>)
    ensures
        stacks_of(final(items)@) == remaining(stacks_of(old(items)@)),
{
    let ghost before = stacks_of(items@);
    let ghost keep = |stack: Stack| stack.count > 0;
    let mut i: usize = 0;
    let ghost mut seen: int = 0;
    proof {
        reveal(Seq::filter);
        assert(stacks_of(items@).take(0) =~= before.take(0).filter(keep));
        assert(stacks_of(items@).skip(0) =~= before.skip(0));
    }
    while i < items.len()
        invariant
            i <= items.len(),
            0 <= seen <= before.len(),
            keep == (|stack: Stack| stack.count > 0),
            stacks_of(items@).take(i as int) == before.take(seen).filter(keep),
            stacks_of(items@).skip(i as int) == before.skip(seen),
        decreases items.len() - i,
    {
        let ghost now = stacks_of(items@);
        proof {
            reveal(Seq::filter);
            assert(now.skip(i as int).len() == before.skip(seen).len());
            assert(now.skip(i as int)[0] == before.skip(seen)[0]);
            assert(before.take(seen + 1).drop_last() =~= before.take(seen));
            assert(before.take(seen + 1).last() == before[seen]);
            assert(before.skip(seen).skip(1) =~= before.skip(seen + 1));
            assert(now.skip(i as int).skip(1) =~= now.skip(i + 1));
        }
        if items[i].count > 0 {
            proof {
                assert(now.take(i + 1) =~= now.take(i as int).push(now[i as int]));
            }
            i = i + 1;
        } else {
            items.remove(i);
            proof {
                assert(stacks_of(items@) =~= now.remove(i as int));
                assert(stacks_of(items@).take(i as int) =~= now.take(i as int));
                assert(stacks_of(items@).skip(i as int) =~= now.skip(i + 1));
            }
        }
        proof {
            seen = seen + 1;
        }
    }
    proof {
        assert(before.skip(seen).len() == 0);
        assert(before.take(seen) =~= before);
        assert(stacks_of(items@).take(i as int) =~= stacks_of(items@));
    }
}

/// Applies functions to the items from a place on.
fn modify<R: Random, M: ExplorationMapResolver>(
    functions: &Vec<ConditionalLootFunction>,
    items: &mut Vec<ItemStack>,
    from: usize,
    context: &LootContext,
    state: &mut LootState<R, M>,
) -> (result: LootResult<()>)
    requires
        sound_functions(functions@),
        old(state)@.valid(),
        from <= old(items)@.len(),
    ensures
        final(state)@.valid(),
        (result, stacks_of(final(items)@), final(state)@) == modified(
            functions@,
            stacks_of(old(items)@).take(from as int),
            stacks_of(old(items)@).skip(from as int),
            *context,
            old(state)@,
        ),
{
    let ghost before = stacks_of(items@);
    let mut i: usize = from;
    while i < items.len()
        invariant
            from <= i <= items@.len() == before.len(),
            before == stacks_of(old(items)@),
            sound_functions(functions@),
            state@.valid(),
            forall|j: int| i <= j < items@.len() ==> (#[trigger] items@[j])@ == before[j],
            modified(
                functions@,
                before.take(from as int),
                before.skip(from as int),
                *context,
                old(state)@,
            ) == modified(
                functions@,
                stacks_of(items@).take(i as int),
                before.skip(i as int),
                *context,
                state@,
            ),
        decreases items.len() - i,
    {
        let ghost done = stacks_of(items@).take(i as int);
        assert(before.skip(i as int).drop_first() =~= before.skip(i + 1));
        assert(before.skip(i as int)[0] == items@[i as int]@);
        let outcome = apply_all(functions, &mut items[i], context, state);
        match outcome {
            Ok(()) => {},
            Err(error) => {
                assert(stacks_of(items@) =~= done.push(items@[i as int]@) + before.skip(
                    i as int,
                ).drop_first());
                return Err(error);
            },
        }
        assert(stacks_of(items@).take(i + 1) =~= done.push(items@[i as int]@));
        i = i + 1;
    }
    assert(before.skip(i as int).len() == 0);
    assert(stacks_of(items@).take(i as int) =~= stacks_of(items@));
    Ok(())
}

/// Adds a new item with functions applied.
fn add_item<R: Random, M: ExplorationMapResolver>(
    item: &Item,
    functions: &Vec<ConditionalLootFunction>,
    result: &mut Vec<ItemStack>,
    context: &LootContext,
    state: &mut LootState<R, M>,
) -> (outcome: LootResult<()>)
    requires
        sound_functions(functions@),
        old(state)@.valid(),
    ensures
        final(state)@.valid(),
        (outcome, stacks_of(final(result)@), final(state)@) == dropped(
            *item,
            functions@,
            stacks_of(old(result)@),
            *context,
            old(state)@,
        ),
{
    let mut stack = ItemStack::new(item);
    match apply_all(functions, &mut stack, context, state) {
        Ok(()) => {},
        Err(error) => {
            return Err(error);
        },
    }
    if stack.count > 0 {
        let ghost before = stacks_of(result@);
        let ghost added = stack@;
        result.push(stack);
        assert(stacks_of(result@) =~= before.push(added));
    }
    Ok(())
}

/// The registered items of a tag.
fn list_tagged<'a>(keys: &Vec<Identifier>, items: &'a Vec<Item>) -> (tagged: Vec<&'a Item>)
    ensures
        tagged@.len() == tagged_items(keys@, items@).len(),
        forall|i: int|
            0 <= i < tagged@.len() ==> *(#[trigger] tagged@[i]) == tagged_items(keys@, items@)[i],
{
    let mut tagged: Vec<&'a Item> = Vec::new();
    let mut i: usize = 0;
    while i < keys.len()
        invariant
            i <= keys.len(),
            tagged@.len() == tagged_items(keys@.take(i as int), items@).len(),
            forall|j: int|
                0 <= j < tagged@.len() ==> *(#[trigger] tagged@[j]) == tagged_items(
                    keys@.take(i as int),
                    items@,
                )[j],
        decreases keys.len() - i,
    {
        assert(keys@.take(i + 1).drop_last() =~= keys@.take(i as int));
        if let Some(item) = by_key(items, &keys[i]) {
            tagged.push(item);
        }
        i = i + 1;
    }
    assert(keys@.take(i as int) =~= keys@);
    tagged
}

/// The weights of the first entries are no more than those of all.
proof fn lemma_weight_sum(entries: Seq<LootEntry>, luck: int, count: int)
    requires
        0 <= count <= entries.len(),
    ensures
        0 <= weight_sum(entries.take(count), luck) <= weight_sum(entries, luck),
    decreases entries.len() - count, count,
{
    if count < entries.len() {
        assert(entries.take(count + 1).drop_last() =~= entries.take(count));
        lemma_weight_sum(entries, luck, count + 1);
        lemma_weight_sum_nonnegative(entries.take(count), luck);
    } else {
        assert(entries.take(count) =~= entries);
        lemma_weight_sum_nonnegative(entries, luck);
    }
}

proof fn lemma_weight_sum_nonnegative(entries: Seq<LootEntry>, luck: int)
    ensures
        weight_sum(entries, luck) >= 0,
    decreases entries.len(),
{
    if entries.len() > 0 {
        lemma_weight_sum_nonnegative(entries.drop_last(), luck);
    }
}

/// The places and weights held by a list.
spec fn listed(found: Seq<(usize, i32)>) -> Seq<(int, int)> {
    Seq::new(found.len(), |i: int| (found[i].0 as int, found[i].1 as int))
}

/// Rolls for an entry.
fn roll_entry<R: Random>(
    entries: &Vec<LootEntry>,
    context: &LootContext,
    random: &mut R,
) -> (place: LootResult<Option<usize>>)
    requires
        forall|i: int|
            0 <= i < entries@.len() ==> sound_conditions(
                (#[trigger] entries@[i]).spec_conditions(),
            ),
        weight_sum(entries@, context.luck as int) <= i32::MAX,
        old(random).valid(),
    ensures
        final(random).valid(),
        *final(random) == rolled_entry(entries@, *context, *old(random)).1,
        match (place, rolled_entry(entries@, *context, *old(random)).0) {
            (Ok(Some(place)), Ok(Some(expected))) => place == expected && place < entries@.len(),
            (Ok(None), Ok(None)) => true,
            (Err(error), Err(expected)) => error == expected,
            _ => false,
        },
{
    let mut found: Vec<(usize, i32)> = Vec::new();
    let mut total: i32 = 0;
    let mut i: usize = 0;
    assert(listed(found@) =~= Seq::empty());
    while i < entries.len()
        invariant
            i <= entries.len(),
            forall|i: int|
                0 <= i < entries@.len() ==> sound_conditions(
                    (#[trigger] entries@[i]).spec_conditions(),
                ),
            weight_sum(entries@, context.luck as int) <= i32::MAX,
            random.valid(),
            0 <= total <= weight_sum(entries@.take(i as int), context.luck as int),
            total == candidate_weight(listed(found@)),
            total == 0 ==> found@.len() == 0,
            found@.len() == 0 ==> total == 0,
            forall|k: int|
                0 <= k < found@.len() ==> (#[trigger] found@[k]).0 < entries@.len() && found@[k].1
                    > 0,
            candidates(entries@, 0, Seq::empty(), *context, *old(random)) == candidates(
                entries@,
                i as int,
                listed(found@),
                *context,
                *random,
            ),
        decreases entries.len() - i,
    {
        let ghost before = listed(found@);
        proof {
            assert(entries@.take(i + 1).drop_last() =~= entries@.take(i as int));
            lemma_weight_sum(entries@, context.luck as int, i + 1);
        }
        match test_all(entries[i].conditions(), context, random) {
            Ok(true) => {
                let weight: i32 = entries[i].effective_weight(context.luck);
                if weight > 0 {
                    found.push((i, weight));
                    proof {
                        assert(listed(found@) =~= before.push((i as int, weight as int)));
                        assert(listed(found@).drop_last() =~= before);
                    }
                    total = total + weight;
                }
            },
            Ok(false) => {},
            Err(error) => {
                return Err(error);
            },
        }
        i = i + 1;
    }
    if found.len() == 0 {
        return Ok(None);
    }
    if found.len() == 1 {
        assert(listed(found@)[0].0 == found@[0].0);
        return Ok(Some(found[0].0));
    }
    let mut draw: i32 = random.next_i32_bounded(total);
    let ghost first = draw as int;
    let mut k: usize = 0;
    while k < found.len()
        invariant
            k <= found.len(),
            draw >= 0,
            random.valid(),
            forall|k: int|
                0 <= k < found@.len() ==> (#[trigger] found@[k]).0 < entries@.len() && found@[k].1
                    > 0,
            selected(listed(found@), 0, first) == selected(listed(found@), k as int, draw as int),
            rolled_entry(entries@, *context, *old(random)) == (
                Ok::<Option<int>, LootError>(Some(selected(listed(found@), 0, first))),
                *random,
            ),
        decreases found.len() - k,
    {
        if draw < found[k].1 {
            return Ok(Some(found[k].0));
        }
        draw = draw - found[k].1;
        k = k + 1;
    }
    Ok(Some(found[0].0))
}

impl LootPool {
    /// Adds the items of this pool.
    fn add_random_items<R: Random, M: ExplorationMapResolver>(
        &self,
        context: &LootContext,
        state: &mut LootState<R, M>,
        result: &mut Vec<ItemStack>,
        depth: usize,
    ) -> (outcome: LootResult<()>)
        requires
            pool_ready(*self, *context.registry, context.luck as int, depth as nat),
            old(state)@.valid(),
        ensures
            final(state)@.valid(),
            (outcome, stacks_of(final(result)@), final(state)@) == pool_items(
                *self,
                stacks_of(old(result)@),
                *context,
                old(state)@,
                depth as nat,
            ),
        decreases depth, self, 1int,
    {
        match test_all(&self.conditions, context, &mut state.random) {
            Ok(true) => {},
            Ok(false) => {
                return Ok(());
            },
            Err(error) => {
                return Err(error);
            },
        }
        let start: usize = result.len();
        let rolls: i32 = match self.rolls.get_int(context.tool, &mut state.random) {
            Ok(rolls) => rolls,
            Err(error) => {
                return Err(error);
            },
        };
        let times: i32 = rolls.wrapping_add(bonus_rolls(self.bonus_rolls, context.luck));
        let mut left: i32 = times;
        let ghost first = state@;
        let ghost before = stacks_of(result@);
        #[verifier::loop_isolation(false)]
        while left > 0
            invariant
                state@.valid(),
                left <= times || left == times,
                rolled(*self, times as int, before, *context, first, depth as nat) == rolled(
                    *self,
                    left as int,
                    stacks_of(result@),
                    *context,
                    state@,
                    depth as nat,
                ),
            decreases left,
        {
            match self.add_random_item(context, state, result, depth) {
                Ok(()) => {},
                Err(error) => {
                    return Err(error);
                },
            }
            left = left - 1;
        }
        if self.functions.len() > 0 {
            proof {
                lemma_rolls_append(*self, times as int, before, *context, first, depth as nat);
            }
            match modify(&self.functions, result, start, context, state) {
                Ok(()) => {},
                Err(error) => {
                    return Err(error);
                },
            }
            keep_remaining(result);
        }
        Ok(())
    }

    /// Selects and adds the items of a single roll of this pool.
    fn add_random_item<R: Random, M: ExplorationMapResolver>(
        &self,
        context: &LootContext,
        state: &mut LootState<R, M>,
        result: &mut Vec<ItemStack>,
        depth: usize,
    ) -> (outcome: LootResult<()>)
        requires
            pool_ready(*self, *context.registry, context.luck as int, depth as nat),
            old(state)@.valid(),
        ensures
            final(state)@.valid(),
            (outcome, stacks_of(final(result)@), final(state)@) == roll_items(
                *self,
                stacks_of(old(result)@),
                *context,
                old(state)@,
                depth as nat,
            ),
        decreases depth, self, 0int,
    {
        proof {
            assert forall|i: int| 0 <= i < self.entries@.len() implies sound_conditions(
                (#[trigger] self.entries@[i]).spec_conditions(),
            ) by {
                assert(entry_ready(
                    self.entries@[i],
                    *context.registry,
                    context.luck as int,
                    depth as nat,
                ));
            }
        }
        match roll_entry(&self.entries, context, &mut state.random) {
            Ok(Some(place)) => {
                assert(entry_ready(
                    self.entries@[place as int],
                    *context.registry,
                    context.luck as int,
                    depth as nat,
                ));
                self.entries[place].create_items(context, state, result, depth)
            },
            Ok(None) => Ok(()),
            Err(error) => Err(error),
        }
    }
}

/// The rolls that luck adds.
fn bonus_rolls(per_luck: i64, luck: i64) -> (rolls: i32)
    ensures
        rolls == whole_product(per_luck as int, luck as int),
{
    assert(-0x8000_0000_0000_0000 * 0x8000_0000_0000_0000 <= per_luck * luck
        <= 0x8000_0000_0000_0000 * 0x8000_0000_0000_0000) by (nonlinear_arith)
        requires
            -0x8000_0000_0000_0000 <= per_luck <= 0x7fff_ffff_ffff_ffff,
            -0x8000_0000_0000_0000 <= luck <= 0x7fff_ffff_ffff_ffff,
    ;
    let product: i128 = per_luck as i128 * luck as i128;
    assert(0x1_0000_0000_0000 == UNIT_STEPS * UNIT_STEPS) by (nonlinear_arith);
    let whole: i128 = floor_div(product, 0x1_0000_0000_0000);
    if whole < i32::MIN as i128 {
        i32::MIN
    } else if whole > i32::MAX as i128 {
        i32::MAX
    } else {
        whole as i32
    }
}

/// Nothing but stacks that hold something is left of a list.
proof fn lemma_remaining_hold(stacks: Seq<Stack>)
    ensures
        all_hold_something(remaining(stacks)),
    decreases stacks.len(),
{
    reveal(Seq::filter);
    if stacks.len() > 0 {
        lemma_remaining_hold(stacks.drop_last());
    }
}

proof fn lemma_extends_transitive(after: Seq<Stack>, between: Seq<Stack>, before: Seq<Stack>)
    requires
        extends(after, between),
        extends(between, before),
    ensures
        extends(after, before),
{
    assert forall|i: int| 0 <= i < after.len() - before.len() implies (#[trigger] after.skip(
        before.len() as int,
    )[i]).count > 0 by {
        if before.len() + i < between.len() {
            assert(between.skip(before.len() as int)[i] == after[before.len() + i]);
        } else {
            assert(after.skip(between.len() as int)[before.len() + i - between.len()]
                == after[before.len() + i]);
        }
    }
}

proof fn lemma_appended_extends<R: Random, M: ExplorationMapResolver>(
    functions: Seq<ConditionalLootFunction>,
    result: Seq<Stack>,
    items: Seq<Stack>,
    context: LootContext,
    state: Eval<R, M>,
)
    ensures
        extends(appended(functions, result, items, context, state).1, result),
{
    let done = modified(functions, Seq::empty(), items, context, state).1;
    lemma_remaining_hold(done);
    assert((result + remaining(done)).skip(result.len() as int) =~= remaining(done));
}

proof fn lemma_dropped_extends<R: Random, M: ExplorationMapResolver>(
    item: Item,
    functions: Seq<ConditionalLootFunction>,
    result: Seq<Stack>,
    context: LootContext,
    state: Eval<R, M>,
)
    ensures
        extends(dropped(item, functions, result, context, state).1, result),
{
}

/// Whether it fails or not, an entry leaves the items there are as they are, and
/// every item that it adds behind them holds something.
pub proof fn law_entry_keeps_collected_items<R: Random, M: ExplorationMapResolver>(
    entry: LootEntry,
    result: Seq<Stack>,
    context: LootContext,
    state: Eval<R, M>,
    depth: nat,
)
    ensures
        extends(entry_items(entry, result, context, state, depth).1, result),
    decreases entry,
{
    match entry {
        LootEntry::Item { name, functions, .. } => {
            if let Some(item) = find(context.registry.items@, name@) {
                lemma_dropped_extends(item, functions@, result, context, state);
            }
        },
        LootEntry::LootTableRef { name, functions, .. } => {
            if let Some(table) = find(context.registry.loot_tables@, name@) {
                if depth > 0 {
                    if let (Ok(items), state) = table_items(
                        table,
                        context,
                        state,
                        (depth - 1) as nat,
                    ) {
                        lemma_appended_extends(functions@, result, items, context, state);
                    }
                }
            }
        },
        LootEntry::InlineLootTable { pools, functions, .. } => {
            if let (Ok(()), items, state) = pools_items(
                pools@,
                Seq::empty(),
                context,
                state,
                depth,
            ) {
                lemma_appended_extends(functions@, result, items, context, state);
            }
        },
        LootEntry::Tag { name, expand, functions, .. } => {
            if let Some(tag) = find(context.registry.item_tags@, name@) {
                let items = tagged_items(tag.values@, context.registry.items@);
                lemma_drops_append(items, functions@, result, context, state);
                let drawn = state.random.bounded(items.len() as int);
                lemma_dropped_extends(
                    items[drawn.0],
                    functions@,
                    result,
                    context,
                    state.with_random(drawn.1),
                );
            }
        },
        LootEntry::Alternatives { children, .. } => {
            lemma_children_append(children@, false, result, context, state, depth);
        },
        LootEntry::Group { children, .. } => {
            lemma_children_append(children@, false, result, context, state, depth);
        },
        LootEntry::Sequence { children, .. } => {
            lemma_children_append(children@, true, result, context, state, depth);
        },
        _ => {},
    }
}

proof fn lemma_drops_append<R: Random, M: ExplorationMapResolver>(
    items: Seq<Item>,
    functions: Seq<ConditionalLootFunction>,
    result: Seq<Stack>,
    context: LootContext,
    state: Eval<R, M>,
)
    ensures
        extends(dropped_all(items, functions, result, context, state).1, result),
    decreases items.len(),
{
    if items.len() > 0 {
        lemma_dropped_extends(items[0], functions, result, context, state);
        if let (Ok(()), next, after) = dropped(items[0], functions, result, context, state) {
            lemma_drops_append(items.drop_first(), functions, next, context, after);
            lemma_extends_transitive(
                dropped_all(items.drop_first(), functions, next, context, after).1,
                next,
                result,
            );
        }
    }
}

proof fn lemma_children_append<R: Random, M: ExplorationMapResolver>(
    children: Seq<LootEntry>,
    stops: bool,
    result: Seq<Stack>,
    context: LootContext,
    state: Eval<R, M>,
    depth: nat,
)
    ensures
        extends(alternative_items(children, result, context, state, depth).1, result),
        extends(group_items(children, stops, result, context, state, depth).1, result),
    decreases children,
{
    if children.len() > 0 {
        match all_hold(children[0].spec_conditions(), context, state.random) {
            (Ok(true), random) => {
                let next = state.with_random(random);
                law_entry_keeps_collected_items(children[0], result, context, next, depth);
                if let (Ok(()), items, after) = entry_items(
                    children[0],
                    result,
                    context,
                    next,
                    depth,
                ) {
                    lemma_children_append(
                        children.drop_first(),
                        stops,
                        items,
                        context,
                        after,
                        depth,
                    );
                    let rest = children.drop_first();
                    lemma_extends_transitive(
                        alternative_items(rest, items, context, after, depth).1,
                        items,
                        result,
                    );
                    lemma_extends_transitive(
                        group_items(rest, stops, items, context, after, depth).1,
                        items,
                        result,
                    );
                }
            },
            (Ok(false), random) => {
                lemma_children_append(
                    children.drop_first(),
                    stops,
                    result,
                    context,
                    state.with_random(random),
                    depth,
                );
            },
            _ => {},
        }
    }
}

/// Rolls add their items behind those there are.
proof fn lemma_rolls_append<R: Random, M: ExplorationMapResolver>(
    pool: LootPool,
    times: int,
    result: Seq<Stack>,
    context: LootContext,
    state: Eval<R, M>,
    depth: nat,
)
    ensures
        extends(rolled(pool, times, result, context, state, depth).1, result),
    decreases times,
{
    if times > 0 {
        if let (Ok(Some(place)), random) = rolled_entry(pool.entries@, context, state.random) {
            if 0 <= place < pool.entries@.len() {
                law_entry_keeps_collected_items(
                    pool.entries@[place],
                    result,
                    context,
                    state.with_random(random),
                    depth,
                );
            }
        }
        if let (Ok(()), items, after) = roll_items(pool, result, context, state, depth) {
            lemma_rolls_append(pool, times - 1, items, context, after, depth);
            lemma_extends_transitive(
                rolled(pool, times - 1, items, context, after, depth).1,
                items,
                result,
            );
        }
    }
}

/// Functions that are applied to items leave those that were done before as they are.
proof fn lemma_modified_keeps_done<R: Random, M: ExplorationMapResolver>(
    functions: Seq<ConditionalLootFunction>,
    done: Seq<Stack>,
    items: Seq<Stack>,
    context: LootContext,
    state: Eval<R, M>,
)
    ensures
        done.is_prefix_of(modified(functions, done, items, context, state).1),
    decreases items.len(),
{
    if items.len() > 0 {
        if let (Ok(()), item, state) = applied_all(functions, items[0], context, state) {
            let rest = items.drop_first();
            lemma_modified_keeps_done(functions, done.push(item), rest, context, state);
            let all = modified(functions, done.push(item), rest, context, state).1;
            assert forall|i: int| 0 <= i < done.len() implies done[i] == all[i] by {
                assert(done.push(item)[i] == all[i]);
            }
        }
    }
}

/// Stacks at the beginning of a list that hold something stay there.
proof fn lemma_remaining_keeps(before: Seq<Stack>, after: Seq<Stack>)
    requires
        all_hold_something(before),
        before.is_prefix_of(after),
    ensures
        before.is_prefix_of(remaining(after)),
    decreases after.len(),
{
    reveal(Seq::filter);
    if after.len() > before.len() {
        let rest = after.drop_last();
        assert(before =~= rest.take(before.len() as int));
        lemma_remaining_keeps(before, rest);
        let kept = remaining(rest);
        assert forall|i: int| 0 <= i < before.len() implies before[i] == remaining(after)[i] by {
            assert(before[i] == kept[i]);
        }
    } else {
        assert(before =~= after);
        lemma_remaining_of_full(before);
    }
}

proof fn lemma_remaining_of_full(stacks: Seq<Stack>)
    requires
        all_hold_something(stacks),
    ensures
        remaining(stacks) == stacks,
    decreases stacks.len(),
{
    reveal(Seq::filter);
    if stacks.len() > 0 {
        let rest = stacks.drop_last();
        assert forall|i: int| 0 <= i < rest.len() implies (#[trigger] rest[i]).count > 0 by {
            assert(rest[i] == stacks[i]);
        }
        lemma_remaining_of_full(rest);
        assert(stacks.last() == stacks[stacks.len() - 1]);
        assert(rest.push(stacks.last()) =~= stacks);
    }
}

/// Whether it fails or not, a pool leaves the items there are, all of which hold
/// something, as they are, and adds its own behind them.
pub proof fn law_pool_keeps_collected_items<R: Random, M: ExplorationMapResolver>(
    pool: LootPool,
    result: Seq<Stack>,
    context: LootContext,
    state: Eval<R, M>,
    depth: nat,
)
    requires
        all_hold_something(result),
    ensures
        result.is_prefix_of(pool_items(pool, result, context, state, depth).1),
{
    if let (Ok(true), random) = all_hold(pool.conditions@, context, state.random) {
        if let (Ok(rolls), random) = pool.rolls.integer(stack_of(context.tool), random) {
            let extra = whole_product(pool.bonus_rolls as int, context.luck as int) as i32;
            let times = (rolls as i32).wrapping_add(extra) as int;
            let first = state.with_random(random);
            lemma_rolls_append(pool, times, result, context, first, depth);
            let (outcome, items, after) = rolled(pool, times, result, context, first, depth);
            let done = items.take(result.len() as int);
            let added = items.skip(result.len() as int);
            assert(done =~= result);
            lemma_modified_keeps_done(pool.functions@, done, added, context, after);
            lemma_remaining_keeps(
                result,
                modified(pool.functions@, done, added, context, after).1,
            );
        }
    }
}

/// Pools that generate without a failure leave nothing but items that hold something.
proof fn lemma_pools_hold<R: Random, M: ExplorationMapResolver>(
    pools: Seq<LootPool>,
    result: Seq<Stack>,
    context: LootContext,
    state: Eval<R, M>,
    depth: nat,
)
    requires
        all_hold_something(result),
    ensures
        pools_items(pools, result, context, state, depth).0 is Ok ==> all_hold_something(
            pools_items(pools, result, context, state, depth).1,
        ),
    decreases pools.len(),
{
    if pools.len() > 0 {
        let pool = pools[0];
        if let (Ok(()), items, after) = pool_items(pool, result, context, state, depth) {
            if let (Ok(true), random) = all_hold(pool.conditions@, context, state.random) {
                if let (Ok(rolls), random) = pool.rolls.integer(stack_of(context.tool), random) {
                    let extra = whole_product(pool.bonus_rolls as int, context.luck as int) as i32;
                    let times = (rolls as i32).wrapping_add(extra) as int;
                    let first = state.with_random(random);
                    lemma_rolls_append(pool, times, result, context, first, depth);
                    let found = rolled(pool, times, result, context, first, depth);
                    assert forall|i: int| 0 <= i < found.1.len() implies (
                    #[trigger] found.1[i]).count > 0 by {
                        if i >= result.len() {
                            assert(found.1.skip(result.len() as int)[i - result.len()]
                                == found.1[i]);
                        } else {
                            assert(found.1[i] == result[i]);
                        }
                    }
                    lemma_remaining_hold(
                        modified(
                            pool.functions@,
                            found.1.take(result.len() as int),
                            found.1.skip(result.len() as int),
                            context,
                            found.2,
                        ).1,
                    );
                }
            }
            lemma_pools_hold(pools.drop_first(), items, context, after, depth);
        }
    }
}

/// Every item that a table generates holds something.
pub proof fn law_generated_items_hold_something<R: Random, M: ExplorationMapResolver>(
    table: LootTable,
    context: LootContext,
    state: Eval<R, M>,
    depth: nat,
)
    ensures
        table_items(table, context, state, depth).0 matches Ok(items) ==> all_hold_something(
            items,
        ),
{
    lemma_pools_hold(table.pools@, Seq::empty(), context, state, depth);
    let pooled = pools_items(table.pools@, Seq::<Stack>::empty(), context, state, depth);
    lemma_remaining_hold(
        modified(table.functions@, Seq::empty(), pooled.1, context, pooled.2).1,
    );
}

/// Adds the items of pools.
fn add_pools<R: Random, M: ExplorationMapResolver>(
    pools: &Vec<LootPool>,
    context: &LootContext,
    state: &mut LootState<R, M>,
    depth: usize,
) -> (items: LootResult<Vec<ItemStack>>)
    requires
        pools_ready(pools@, *context.registry, context.luck as int, depth as nat),
        old(state)@.valid(),
    ensures
        final(state)@.valid(),
        ({
            let expected = pools_items(pools@, Seq::empty(), *context, old(state)@, depth as nat);
            &&& final(state)@ == expected.2
            &&& match (items, expected.0) {
                (Ok(items), Ok(())) => stacks_of(items@) == expected.1,
                (Err(error), Err(expected)) => error == expected,
                _ => false,
            }
        }),
    decreases depth, pools, 0int,
{
    let mut result: Vec<ItemStack> = Vec::new();
    let mut i: usize = 0;
    assert(pools@.skip(0) =~= pools@);
    assert(stacks_of(result@) =~= Seq::empty());
    #[verifier::loop_isolation(false)]
    while i < pools.len()
        invariant
            i <= pools.len(),
            state@.valid(),
            pools_items(pools@, Seq::empty(), *context, old(state)@, depth as nat) == pools_items(
                pools@.skip(i as int),
                stacks_of(result@),
                *context,
                state@,
                depth as nat,
            ),
        decreases pools.len() - i,
    {
        assert(pools@.skip(i as int).drop_first() =~= pools@.skip(i + 1));
        assert(pool_ready(
            pools@[i as int],
            *context.registry,
            context.luck as int,
            depth as nat,
        ));
        match pools[i].add_random_items(context, state, &mut result, depth) {
            Ok(()) => {},
            Err(error) => {
                return Err(error);
            },
        }
        i = i + 1;
    }
    Ok(result)
}

/// Items that are those expected, or a failure that is.
pub open spec fn agrees(items: LootResult<Vec<ItemStack>>, expected: LootResult<Seq<Stack>>) -> bool {
    match (items, expected) {
        (Ok(items), Ok(expected)) => stacks_of(items@) == expected,
        (Err(error), Err(expected)) => error == expected,
        _ => false,
    }
}

/// Applies an entry's functions to its items and adds what is left of them.
fn append_items<R: Random, M: ExplorationMapResolver>(
    functions: &Vec<ConditionalLootFunction>,
    items: Vec<ItemStack>,
    context: &LootContext,
    state: &mut LootState<R, M>,
    result: &mut Vec<ItemStack>,
) -> (outcome: LootResult<()>)
    requires
        sound_functions(functions@),
        old(state)@.valid(),
    ensures
        final(state)@.valid(),
        (outcome, stacks_of(final(result)@), final(state)@) == appended(
            functions@,
            stacks_of(old(result)@),
            stacks_of(items@),
            *context,
            old(state)@,
        ),
{
    let mut items = items;
    assert(stacks_of(items@).take(0) =~= Seq::empty());
    assert(stacks_of(items@).skip(0) =~= stacks_of(items@));
    match modify(functions, &mut items, 0, context, state) {
        Ok(()) => {},
        Err(error) => {
            return Err(error);
        },
    }
    keep_remaining(&mut items);
    let ghost before = stacks_of(result@);
    let ghost added = stacks_of(items@);
    result.append(&mut items);
    assert(stacks_of(result@) =~= before + added);
    Ok(())
}

impl LootEntry {
    /// Creates items from this entry and adds them to the result.
    #[verifier::rlimit(40)]
    fn create_items<R: Random, M: ExplorationMapResolver>(
        &self,
        context: &LootContext,
        state: &mut LootState<R, M>,
        result: &mut Vec<ItemStack>,
        depth: usize,
    ) -> (outcome: LootResult<()>)
        requires
            entry_ready(*self, *context.registry, context.luck as int, depth as nat),
            old(state)@.valid(),
        ensures
            final(state)@.valid(),
            (outcome, stacks_of(final(result)@), final(state)@) == entry_items(
                *self,
                stacks_of(old(result)@),
                *context,
                old(state)@,
                depth as nat,
            ),
            extends(stacks_of(final(result)@), stacks_of(old(result)@)),
        decreases depth, self, 0int,
    {
        proof {
            law_entry_keeps_collected_items(
                *self,
                stacks_of(result@),
                *context,
                state@,
                depth as nat,
            );
        }
        let registry = context.registry;
        match self {
            LootEntry::Item { name, functions, .. } => match by_key(&registry.items, name) {
                Some(item) => add_item(item, functions, result, context, state),
                None => Err(
                    LootError::UnknownRegistryValue { registry: "item", key: name.clone() },
                ),
            },
            LootEntry::LootTableRef { name, functions, .. } => match by_key(
                &registry.loot_tables,
                name,
            ) {
                Some(table) => match table.get_random_items_raw(context, state, depth - 1) {
                    Ok(items) => append_items(functions, items, context, state, result),
                    Err(error) => Err(error),
                },
                None => Err(
                    LootError::UnknownRegistryValue { registry: "loot table", key: name.clone() },
                ),
            },
            LootEntry::InlineLootTable { pools, functions, .. } => match add_pools(
                pools,
                context,
                state,
                depth,
            ) {
                Ok(items) => append_items(functions, items, context, state, result),
                Err(error) => Err(error),
            },
            LootEntry::Tag { name, expand, functions, .. } => {
                let tag = match by_key(&registry.item_tags, name) {
                    Some(tag) => tag,
                    None => {
                        return Err(
                            LootError::UnknownRegistryTag { registry: "item", key: name.clone() },
                        );
                    },
                };
                let items = list_tagged(&tag.values, &registry.items);
                if *expand {
                    match LootTable::random_index(items.len(), &mut state.random) {
                        Some(index) => add_item(items[index], functions, result, context, state),
                        None => Ok(()),
                    }
                } else {
                    let ghost tagged = tagged_items(tag.values@, registry.items@);
                    let mut i: usize = 0;
                    assert(tagged.skip(0) =~= tagged);
                    #[verifier::loop_isolation(false)]
                    while i < items.len()
                        invariant
                            i <= items.len(),
                            state@.valid(),
                            dropped_all(
                                tagged,
                                functions@,
                                stacks_of(old(result)@),
                                *context,
                                old(state)@,
                            ) == dropped_all(
                                tagged.skip(i as int),
                                functions@,
                                stacks_of(result@),
                                *context,
                                state@,
                            ),
                        decreases items.len() - i,
                    {
                        assert(tagged.skip(i as int).drop_first() =~= tagged.skip(i + 1));
                        match add_item(items[i], functions, result, context, state) {
                            Ok(()) => {},
                            Err(error) => {
                                return Err(error);
                            },
                        }
                        i = i + 1;
                    }
                    Ok(())
                }
            },
            LootEntry::Alternatives { children, .. } => {
                add_alternatives(children, context, state, result, depth)
            },
            LootEntry::Group { children, .. } => {
                add_children(children, false, context, state, result, depth)
            },
            LootEntry::Sequence { children, .. } => {
                add_children(children, true, context, state, result, depth)
            },
            LootEntry::Empty { .. } => Ok(()),
            LootEntry::Dynamic { .. } => Err(LootError::UnsupportedEntry("dynamic")),
            LootEntry::Slots { .. } => Err(LootError::UnsupportedEntry("slots")),
        }
    }
}

/// Adds the items of the first child that passes its conditions and yields any.
fn add_alternatives<R: Random, M: ExplorationMapResolver>(
    children: &Vec<LootEntry>,
    context: &LootContext,
    state: &mut LootState<R, M>,
    result: &mut Vec<ItemStack>,
    depth: usize,
) -> (outcome: LootResult<()>)
    requires
        entries_ready(children@, *context.registry, context.luck as int, depth as nat),
        old(state)@.valid(),
    ensures
        final(state)@.valid(),
        (outcome, stacks_of(final(result)@), final(state)@) == alternative_items(
            children@,
            stacks_of(old(result)@),
            *context,
            old(state)@,
            depth as nat,
        ),
    decreases depth, children, 0int,
{
    let mut i: usize = 0;
    assert(children@.skip(0) =~= children@);
    #[verifier::loop_isolation(false)]
    while i < children.len()
        invariant
            i <= children.len(),
            state@.valid(),
            alternative_items(
                children@,
                stacks_of(old(result)@),
                *context,
                old(state)@,
                depth as nat,
            ) == alternative_items(
                children@.skip(i as int),
                stacks_of(result@),
                *context,
                state@,
                depth as nat,
            ),
        decreases children.len() - i,
    {
        assert(children@.skip(i as int).drop_first() =~= children@.skip(i + 1));
        let child = &children[i];
        assert(entry_ready(*child, *context.registry, context.luck as int, depth as nat));
        match test_all(child.conditions(), context, &mut state.random) {
            Ok(true) => {
                let before: usize = result.len();
                match child.create_items(context, state, result, depth) {
                    Ok(()) => {},
                    Err(error) => {
                        return Err(error);
                    },
                }
                if result.len() > before {
                    return Ok(());
                }
            },
            Ok(false) => {},
            Err(error) => {
                return Err(error);
            },
        }
        i = i + 1;
    }
    Ok(())
}

/// Adds the items of the children that pass their conditions. With `stops`, a child
/// that does not pass ends it.
fn add_children<R: Random, M: ExplorationMapResolver>(
    children: &Vec<LootEntry>,
    stops: bool,
    context: &LootContext,
    state: &mut LootState<R, M>,
    result: &mut Vec<ItemStack>,
    depth: usize,
) -> (outcome: LootResult<()>)
    requires
        entries_ready(children@, *context.registry, context.luck as int, depth as nat),
        old(state)@.valid(),
    ensures
        final(state)@.valid(),
        (outcome, stacks_of(final(result)@), final(state)@) == group_items(
            children@,
            stops,
            stacks_of(old(result)@),
            *context,
            old(state)@,
            depth as nat,
        ),
    decreases depth, children, 0int,
{
    let mut i: usize = 0;
    assert(children@.skip(0) =~= children@);
    #[verifier::loop_isolation(false)]
    while i < children.len()
        invariant
            i <= children.len(),
            state@.valid(),
            group_items(
                children@,
                stops,
                stacks_of(old(result)@),
                *context,
                old(state)@,
                depth as nat,
            ) == group_items(
                children@.skip(i as int),
                stops,
                stacks_of(result@),
                *context,
                state@,
                depth as nat,
            ),
        decreases children.len() - i,
    {
        assert(children@.skip(i as int).drop_first() =~= children@.skip(i + 1));
        let child = &children[i];
        assert(entry_ready(*child, *context.registry, context.luck as int, depth as nat));
        match test_all(child.conditions(), context, &mut state.random) {
            Ok(true) => {
                match child.create_items(context, state, result, depth) {
                    Ok(()) => {},
                    Err(error) => {
                        return Err(error);
                    },
                }
            },
            Ok(false) => {
                if stops {
                    return Ok(());
                }
            },
            Err(error) => {
                return Err(error);
            },
        }
        i = i + 1;
    }
    Ok(())
}

/// An index below a length, and the state after it was drawn. Nothing is drawn for
/// a length that is zero or does not fit.
pub open spec fn drawn_index<R: Random>(len: int, random: R) -> (Option<int>, R) {
    if len <= 0 || len > i32::MAX {
        (None, random)
    } else {
        (Some(random.bounded(len).0), random.bounded(len).1)
    }
}

impl LootTable {
    /// Draws an index below a length.
    pub fn random_index<R: Random>(len: usize, random: &mut R) -> (index: Option<usize>)
        requires
            old(random).valid(),
        ensures
            final(random).valid(),
            *final(random) == drawn_index(len as int, *old(random)).1,
            match (index, drawn_index(len as int, *old(random)).0) {
                (Some(index), Some(expected)) => index == expected && index < len,
                (None, None) => true,
                _ => false,
            },
    {
        if len == 0 || len > i32::MAX as usize {
            return None;
        }
        Some(random.next_i32_bounded(len as i32) as usize)
    }

    /// The items of this table before they are split into stacks.
    pub fn get_random_items_raw<R: Random, M: ExplorationMapResolver>(
        &self,
        context: &LootContext,
        state: &mut LootState<R, M>,
        depth: usize,
    ) -> (items: LootResult<Vec<ItemStack>>)
        requires
            table_ready(*self, *context.registry, context.luck as int, depth as nat),
            old(state)@.valid(),
        ensures
            final(state)@.valid(),
            final(state)@ == table_items(*self, *context, old(state)@, depth as nat).1,
            agrees(items, table_items(*self, *context, old(state)@, depth as nat).0),
        decreases depth, self.pools, 1int,
    {
        let mut items = match add_pools(&self.pools, context, state, depth) {
            Ok(items) => items,
            Err(error) => {
                return Err(error);
            },
        };
        if self.functions.len() > 0 {
            assert(stacks_of(items@).take(0) =~= Seq::empty());
            assert(stacks_of(items@).skip(0) =~= stacks_of(items@));
            match modify(&self.functions, &mut items, 0, context, state) {
                Ok(()) => {},
                Err(error) => {
                    return Err(error);
                },
            }
            keep_remaining(&mut items);
        }
        Ok(items)
    }
}

} // verus!
