//! Splitting, shuffling and placing generated items.
use vstd::prelude::*;

use crate::item_stack::{stacks_of, ItemStack, Stack};
use crate::loot_table::conditions::LootContext;
use crate::loot_table::entries::LootTable;
use crate::loot_table::error::LootResult;
use crate::loot_table::functions::{Eval, ExplorationMapResolver, LootState};
use crate::loot_table::generation::{agrees, table_items, table_ready};
use crate::random::{between, next_i32_between, Random};

verus! {

/// A count cut into stacks of at most `max`.
pub open spec fn pieces(stack: Stack, max: int, left: int) -> Seq<Stack>
    decreases left,
{
    if left <= 0 || max <= 0 {
        Seq::empty()
    } else {
        let count = if left < max {
            left
        } else {
            max
        };
        seq![stack.with_count(count as i32)] + pieces(stack, max, left - count)
    }
}

/// The stacks that one generated item makes: none where it is empty.
pub open spec fn split_one(stack: Stack) -> Seq<Stack> {
    if stack.is_empty() {
        Seq::empty()
    } else if stack.count < stack.max_stack_size() {
        seq![stack]
    } else {
        pieces(stack, stack.max_stack_size() as int, stack.count as int)
    }
}

/// The stacks that generated items make.
pub open spec fn split_all(stacks: Seq<Stack>) -> Seq<Stack>
    decreases stacks.len(),
{
    if stacks.len() == 0 {
        Seq::empty()
    } else {
        split_all(stacks.drop_last()) + split_one(stacks.last())
    }
}

/// A sequence with two of its places swapped.
pub open spec fn swapped<T>(values: Seq<T>, a: int, b: int) -> Seq<T> {
    values.update(a, values[b]).update(b, values[a])
}

/// A sequence whose first `size` places were shuffled, and the state after that:
/// from the last of them down, each place is swapped with one up to it.
pub open spec fn shuffled<T, R: Random>(values: Seq<T>, size: int, random: R) -> (Seq<T>, R)
    decreases size,
{
    if size < 2 || size > i32::MAX {
        (values, random)
    } else {
        let drawn = random.bounded(size);
        shuffled(swapped(values, size - 1, drawn.0), size - 1, drawn.1)
    }
}

/// Stacks cut up until there are as many as `slots`, or none is left to cut, and
/// the state after that. `single` holds what is not cut any more.
pub open spec fn cut<R: Random>(
    single: Seq<Stack>,
    splittable: Seq<Stack>,
    slots: int,
    random: R,
) -> (Seq<Stack>, R)
    decreases slots - single.len() - splittable.len(),
{
    if single.len() + splittable.len() >= slots || splittable.len() == 0 || splittable.len()
        > i32::MAX {
        (single + splittable, random)
    } else {
        let drawn = random.bounded(splittable.len() as int);
        if 0 <= drawn.0 < splittable.len() {
            let item = splittable[drawn.0];
            let rest = splittable.remove(drawn.0);
            let amount = between(drawn.1, 1, item.count as int / 2);
            let kept = item.with_count((item.count - amount.0) as i32);
            let split = item.with_count(amount.0 as i32);
            let first = again(kept, single, rest, amount.1);
            let second = again(split, first.0, first.1, first.2);
            cut(second.0, second.1, slots, second.2)
        } else {
            (single + splittable, drawn.1)
        }
    }
}

/// A piece put back for more cutting, by the toss of a coin where it is of more
/// than one item, and the state after the toss.
pub open spec fn again<R: Random>(
    piece: Stack,
    single: Seq<Stack>,
    splittable: Seq<Stack>,
    random: R,
) -> (Seq<Stack>, Seq<Stack>, R) {
    if piece.count > 1 {
        let (more, random) = random.coin();
        if more {
            (single, splittable.push(piece), random)
        } else {
            (single.push(piece), splittable, random)
        }
    } else {
        (single.push(piece), splittable, random)
    }
}

/// The stacks of more than one item.
pub open spec fn several(stacks: Seq<Stack>) -> Seq<Stack> {
    stacks.filter(|stack: Stack| !stack.is_empty() && stack.count > 1)
}

/// The stacks of one item.
pub open spec fn singles(stacks: Seq<Stack>) -> Seq<Stack> {
    stacks.filter(|stack: Stack| !stack.is_empty() && stack.count <= 1)
}

/// Stacks spread over `slots` places: cut up, then shuffled.
pub open spec fn spread<R: Random>(stacks: Seq<Stack>, slots: int, random: R) -> (Seq<Stack>, R) {
    let (pieces, random) = cut(singles(stacks), several(stacks), slots, random);
    shuffled(pieces, pieces.len() as int, random)
}

/// The places of the empty stacks.
pub open spec fn empty_places(items: Seq<Stack>) -> Seq<usize>
    decreases items.len(),
{
    if items.len() == 0 {
        Seq::empty()
    } else {
        let before = empty_places(items.drop_last());
        if items.last().is_empty() {
            before.push((items.len() - 1) as usize)
        } else {
            before
        }
    }
}

/// Items after stacks were put into places, from the last place on; what finds no
/// place is lost.
pub open spec fn placed(items: Seq<Stack>, places: Seq<usize>, stacks: Seq<Stack>) -> Seq<Stack>
    decreases stacks.len(),
{
    if stacks.len() == 0 || places.len() == 0 {
        items
    } else {
        placed(
            items.update(places.last() as int, stacks[0]),
            places.drop_last(),
            stacks.drop_first(),
        )
    }
}

impl LootTable {
    /// A table can be evaluated.
    pub open spec fn ready(self, context: LootContext) -> bool {
        table_ready(
            self,
            *context.registry,
            context.luck as int,
            context.registry.loot_tables@.len(),
        )
    }

    /// The stacks that the table generates, and the state after that.
    pub open spec fn generated<R: Random, M: ExplorationMapResolver>(
        self,
        context: LootContext,
        state: Eval<R, M>,
    ) -> (LootResult<Seq<Stack>>, Eval<R, M>) {
        match table_items(self, context, state, context.registry.loot_tables@.len()) {
            (Ok(items), state) => (Ok(split_all(items)), state),
            failed => failed,
        }
    }

    /// A container's items after the table filled its empty places, and the state after that.
    pub open spec fn filled<R: Random, M: ExplorationMapResolver>(
        self,
        items: Seq<Stack>,
        context: LootContext,
        state: Eval<R, M>,
    ) -> (LootResult<Seq<Stack>>, Eval<R, M>) {
        match self.generated(context, state) {
            (Ok(stacks), state) => {
                let empty = empty_places(items);
                let (places, random) = shuffled(empty, empty.len() as int, state.random);
                let (pieces, random) = spread(stacks, places.len() as int, random);
                (Ok(placed(items, places, pieces)), state.with_random(random))
            },
            failed => failed,
        }
    }
}

/// Swaps two places of a list.
fn swap<T>(values: &mut Vec<T>, a: usize, b: usize)
    requires
        b <= a < old(values)@.len(),
    ensures
        final(values)@ == swapped(old(values)@, a as int, b as int),
{
    if a == b {
        assert(values@ =~= swapped(old(values)@, a as int, b as int));
        return;
    }
    let upper = values.remove(a);
    let lower = values.remove(b);
    values.insert(b, upper);
    values.insert(a, lower);
    assert(values@ =~= swapped(old(values)@, a as int, b as int));
}

impl LootTable {
    /// Shuffles a list.
    pub fn shuffle<T, R: Random>(values: &mut Vec<T>, random: &mut R)
        requires
            old(random).valid(),
        ensures
            final(random).valid(),
            (final(values)@, *final(random)) == shuffled(
                old(values)@,
                old(values)@.len() as int,
                *old(random),
            ),
    {
        let mut size: usize = values.len();
        while size >= 2
            invariant
                random.valid(),
                size <= values@.len(),
                shuffled(values@, size as int, *random) == shuffled(
                    old(values)@,
                    old(values)@.len() as int,
                    *old(random),
                ),
            decreases size,
        {
            match LootTable::random_index(size, random) {
                Some(index) => {
                    swap(values, size - 1, index);
                },
                None => {
                    return;
                },
            }
            size = size - 1;
        }
    }

    /// Cuts items into stacks that are not too large.
    fn split_stacks(raw_items: Vec<ItemStack>) -> (stacks: Vec<ItemStack>)
        ensures
            stacks_of(stacks@) == split_all(stacks_of(raw_items@)),
    {
        let mut stacks: Vec<ItemStack> = Vec::new();
        let ghost raw = stacks_of(raw_items@);
        let mut i: usize = 0;
        assert(stacks_of(stacks@) =~= split_all(raw.take(0)));
        while i < raw_items.len()
            invariant
                i <= raw_items.len(),
                raw == stacks_of(raw_items@),
                stacks_of(stacks@) == split_all(raw.take(i as int)),
            decreases raw_items.len() - i,
        {
            let item = &raw_items[i];
            let ghost before = stacks_of(stacks@);
            proof {
                assert(raw.take(i + 1).drop_last() =~= raw.take(i as int));
                assert(raw.take(i + 1).last() == item@);
            }
            if !item.is_empty() {
                let max: i32 = item.max_stack_size();
                if item.count < max {
                    stacks.push(item.copy());
                    assert(stacks_of(stacks@) =~= before + seq![item@]);
                } else {
                    let mut left: i32 = item.count;
                    assert(before + pieces(item@, max as int, left as int) =~= before + pieces(
                        item@,
                        max as int,
                        item.count as int,
                    ));
                    while left > 0
                        invariant
                            max >= 1,
                            stacks_of(stacks@) + pieces(item@, max as int, left as int) == before
                                + pieces(item@, max as int, item.count as int),
                        decreases left,
                    {
                        let count: i32 = if left < max {
                            left
                        } else {
                            max
                        };
                        let ghost now = stacks_of(stacks@);
                        let ghost piece = item@.with_count(count);
                        stacks.push(item.copy_with_count(count));
                        proof {
                            let rest = pieces(item@, max as int, left - count);
                            assert(stacks_of(stacks@) =~= now.push(piece));
                            assert(now + (seq![piece] + rest) =~= now.push(piece) + rest);
                        }
                        left = left - count;
                    }
                    assert(pieces(item@, max as int, left as int) =~= Seq::empty());
                    assert(stacks_of(stacks@) + Seq::<Stack>::empty() =~= stacks_of(stacks@));
                }
            } else {
                assert(before + Seq::<Stack>::empty() =~= before);
            }
            i = i + 1;
        }
        assert(raw.take(i as int) =~= raw);
        stacks
    }

    /// Puts a piece back for more cutting, by the toss of a coin.
    fn put_back<R: Random>(
        piece: ItemStack,
        single: &mut Vec<ItemStack>,
        splittable: &mut Vec<ItemStack>,
        random: &mut R,
    )
        requires
            old(random).valid(),
        ensures
            final(random).valid(),
            (stacks_of(final(single)@), stacks_of(final(splittable)@), *final(random)) == again(
                piece@,
                stacks_of(old(single)@),
                stacks_of(old(splittable)@),
                *old(random),
            ),
    {
        let ghost one = stacks_of(single@);
        let ghost other = stacks_of(splittable@);
        let ghost added = piece@;
        if piece.count > 1 && random.next_bool() {
            splittable.push(piece);
            assert(stacks_of(splittable@) =~= other.push(added));
        } else {
            single.push(piece);
            assert(stacks_of(single@) =~= one.push(added));
        }
    }

    /// Spreads stacks over a number of places: cuts them up, then shuffles them.
    fn shuffle_and_split_items<R: Random>(
        result: &mut Vec<ItemStack>,
        available_slots: usize,
        random: &mut R,
    )
        requires
            old(random).valid(),
        ensures
            final(random).valid(),
            (stacks_of(final(result)@), *final(random)) == spread(
                stacks_of(old(result)@),
                available_slots as int,
                *old(random),
            ),
    {
        let ghost given = stacks_of(result@);
        let ghost many = |stack: Stack| !stack.is_empty() && stack.count > 1;
        let ghost few = |stack: Stack| !stack.is_empty() && stack.count <= 1;
        let mut splittable: Vec<ItemStack> = Vec::new();
        let mut single: Vec<ItemStack> = Vec::new();
        let mut i: usize = 0;
        proof {
            reveal(Seq::filter);
            assert(stacks_of(splittable@) =~= given.take(0).filter(many));
            assert(stacks_of(single@) =~= given.take(0).filter(few));
        }
        while i < result.len()
            invariant
                i <= result.len(),
                given == stacks_of(result@),
                random.valid(),
                *random == *old(random),
                given == stacks_of(old(result)@),
                many == (|stack: Stack| !stack.is_empty() && stack.count > 1),
                few == (|stack: Stack| !stack.is_empty() && stack.count <= 1),
                stacks_of(splittable@) == given.take(i as int).filter(many),
                stacks_of(single@) == given.take(i as int).filter(few),
                forall|j: int|
                    0 <= j < splittable@.len() ==> (#[trigger] stacks_of(splittable@)[j]).count > 1,
            decreases result.len() - i,
        {
            let item = &result[i];
            proof {
                reveal(Seq::filter);
                assert(given.take(i + 1).drop_last() =~= given.take(i as int));
                assert(given.take(i + 1).last() == item@);
            }
            if !item.is_empty() {
                let ghost one = stacks_of(single@);
                let ghost other = stacks_of(splittable@);
                if item.count > 1 {
                    splittable.push(item.copy());
                    assert(stacks_of(splittable@) =~= other.push(item@));
                } else {
                    single.push(item.copy());
                    assert(stacks_of(single@) =~= one.push(item@));
                }
            }
            i = i + 1;
        }
        assert(given.take(i as int) =~= given);
        let ghost target = cut(
            singles(given),
            several(given),
            available_slots as int,
            *old(random),
        );
        let mut open = true;
        while open && single.len() < available_slots && splittable.len() < available_slots
            - single.len() && splittable.len() > 0
            invariant
                random.valid(),
                forall|j: int|
                    0 <= j < splittable@.len() ==> (#[trigger] stacks_of(splittable@)[j]).count > 1,
                open ==> cut(
                    stacks_of(single@),
                    stacks_of(splittable@),
                    available_slots as int,
                    *random,
                ) == target,
                !open ==> target == (stacks_of(single@) + stacks_of(splittable@), *random),
            decreases
                    if open {
                        1int
                    } else {
                        0int
                    },
                    available_slots - single@.len() - splittable@.len(),
        {
            let ghost one = stacks_of(single@);
            let ghost other = stacks_of(splittable@);
            let ghost before = *random;
            match LootTable::random_index(splittable.len(), random) {
                Some(index) => {
                    let mut item = splittable.remove(index);
                    let ghost whole = item@;
                    assert(whole == other[index as int]);
                    assert(stacks_of(splittable@) =~= other.remove(index as int));
                    let amount: i32 = next_i32_between(random, 1, item.count / 2);
                    let split = item.split(amount);
                    assert(item@ == whole.with_count((whole.count - amount) as i32));
                    assert(split@ == whole.with_count(amount));
                    LootTable::put_back(item, &mut single, &mut splittable, random);
                    LootTable::put_back(split, &mut single, &mut splittable, random);
                },
                None => {
                    open = false;
                },
            }
        }
        single.append(&mut splittable);
        assert(stacks_of(single@) =~= target.0);
        let ghost pieces = single@;
        LootTable::shuffle(&mut single, random);
        proof {
            lemma_shuffled_stacks(pieces, pieces.len() as int, target.1);
        }
        *result = single;
    }

    /// Generates random items from this table: each pool whose conditions hold rolls
    /// for its entries, and the functions of the entries, the pools and the table
    /// are applied to what they yield.
    pub fn get_random_items<R: Random, M: ExplorationMapResolver>(
        &self,
        context: &LootContext,
        state: &mut LootState<R, M>,
    ) -> (items: LootResult<Vec<ItemStack>>)
        requires
            self.ready(*context),
            old(state)@.valid(),
        ensures
            final(state)@.valid(),
            final(state)@ == self.generated(*context, old(state)@).1,
            agrees(items, self.generated(*context, old(state)@).0),
    {
        match self.get_random_items_raw(context, state, context.registry.loot_tables.len()) {
            Ok(raw_items) => Ok(LootTable::split_stacks(raw_items)),
            Err(error) => Err(error),
        }
    }

    /// Fills the empty slots of a container. Where the evaluation fails, nothing of
    /// the container changes.
    pub fn fill<R: Random, M: ExplorationMapResolver>(
        &self,
        items: &mut Vec<ItemStack>,
        context: &LootContext,
        state: &mut LootState<R, M>,
    ) -> (result: LootResult<()>)
        requires
            self.ready(*context),
            old(state)@.valid(),
        ensures
            final(state)@.valid(),
            final(state)@ == self.filled(stacks_of(old(items)@), *context, old(state)@).1,
            match (result, self.filled(stacks_of(old(items)@), *context, old(state)@).0) {
                (Ok(()), Ok(expected)) => stacks_of(final(items)@) == expected,
                (Err(error), Err(expected)) => error == expected && final(items)@ == old(items)@,
                _ => false,
            },
            final(items)@.len() == old(items)@.len(),
            forall|slot: int|
                0 <= slot < old(items)@.len() && !old(items)@[slot]@.is_empty() ==> (
                #[trigger] final(items)@[slot])@ == old(items)@[slot]@,
    {
        let mut generated = match self.get_random_items(context, state) {
            Ok(generated) => generated,
            Err(error) => {
                return Err(error);
            },
        };
        proof {
            let slots = stacks_of(old(items)@);
            assert(slots.len() == items.len());
            assert forall|slot: int| 0 <= slot < slots.len() && !slots[slot].is_empty() implies (
            self.filled(slots, *context, old(state)@).0->Ok_0)[slot] == #[trigger] slots[slot] by {
                lemma_filling_keeps_occupied_slots(*self, slots, *context, old(state)@, slot);
            }
        }
        let ghost before = stacks_of(items@);
        let mut places: Vec<usize> = Vec::new();
        let mut i: usize = 0;
        assert(empty_places(before.take(0)) =~= places@);
        while i < items.len()
            invariant
                i <= items.len(),
                before == stacks_of(items@),
                places@ == empty_places(before.take(i as int)),
                forall|j: int| 0 <= j < places@.len() ==> #[trigger] places@[j] < i,
            decreases items.len() - i,
        {
            assert(before.take(i + 1).drop_last() =~= before.take(i as int));
            assert(before.take(i + 1).last() == items@[i as int]@);
            if items[i].is_empty() {
                places.push(i);
            }
            i = i + 1;
        }
        assert(before.take(i as int) =~= before);
        let ghost unshuffled = places@;
        let ghost random = state.random;
        LootTable::shuffle(&mut places, &mut state.random);
        proof {
            law_shuffling_permutes(unshuffled, unshuffled.len() as int, random);
            lemma_same_bound(unshuffled, places@, items@.len() as int);
        }
        LootTable::shuffle_and_split_items(&mut generated, places.len(), &mut state.random);
        let ghost pieces = stacks_of(generated@);
        let ghost target = placed(before, places@, pieces);
        let mut k: usize = 0;
        assert(pieces.skip(0) =~= pieces);
        while k < generated.len() && places.len() > 0
            invariant
                k <= generated.len(),
                pieces == stacks_of(generated@),
                items@.len() == before.len(),
                forall|j: int| 0 <= j < places@.len() ==> #[trigger] places@[j] < items@.len(),
                placed(stacks_of(items@), places@, pieces.skip(k as int)) == target,
            decreases generated.len() - k,
        {
            let ghost now = stacks_of(items@);
            assert(pieces.skip(k as int).drop_first() =~= pieces.skip(k + 1));
            if let Some(slot) = places.pop() {
                items.set(slot, generated[k].copy());
                assert(stacks_of(items@) =~= now.update(slot as int, pieces[k as int]));
            }
            k = k + 1;
        }
        proof {
            let slots = stacks_of(old(items)@);
            assert(stacks_of(items@) == target);
            assert forall|slot: int|
                0 <= slot < slots.len() && !old(items)@[slot]@.is_empty() implies (
            #[trigger] items@[slot])@ == old(items)@[slot]@ by {
                assert(stacks_of(items@)[slot] == items@[slot]@);
                assert(slots[slot] == old(items)@[slot]@);
            }
        }
        Ok(())
    }
}

/// Shuffling stacks shuffles what they stand for.
proof fn lemma_shuffled_stacks<R: Random>(stacks: Seq<ItemStack>, size: int, random: R)
    requires
        size <= stacks.len(),
        random.valid(),
    ensures
        stacks_of(shuffled(stacks, size, random).0) == shuffled(
            stacks_of(stacks),
            size,
            random,
        ).0,
        shuffled(stacks, size, random).1 == shuffled(stacks_of(stacks), size, random).1,
    decreases size,
{
    if 2 <= size <= i32::MAX {
        random.law_draws_stay_in_range(size);
        let drawn = random.bounded(size);
        let next = swapped(stacks, size - 1, drawn.0);
        lemma_shuffled_stacks(next, size - 1, drawn.1);
        assert(stacks_of(next) =~= swapped(stacks_of(stacks), size - 1, drawn.0));
    }
}

/// Swapping two places keeps what a sequence holds.
proof fn lemma_swapped<T>(values: Seq<T>, a: int, b: int)
    requires
        0 <= a < values.len(),
        0 <= b < values.len(),
    ensures
        swapped(values, a, b).to_multiset() == values.to_multiset(),
        swapped(values, a, b).len() == values.len(),
{
    broadcast use vstd::seq_lib::group_to_multiset_ensures;

    let once = values.update(a, values[b]);
    vstd::seq_lib::to_multiset_update(values, a, values[b]);
    vstd::seq_lib::to_multiset_update(once, b, values[a]);
    assert(swapped(values, a, b).to_multiset() =~= values.to_multiset());
}

/// Shuffling keeps what a sequence holds, and the source valid.
pub proof fn law_shuffling_permutes<T, R: Random>(values: Seq<T>, size: int, random: R)
    requires
        0 <= size <= values.len(),
        random.valid(),
    ensures
        shuffled(values, size, random).0.to_multiset() == values.to_multiset(),
        shuffled(values, size, random).0.len() == values.len(),
        shuffled(values, size, random).1.valid(),
    decreases size,
{
    if 2 <= size <= i32::MAX {
        random.law_draws_stay_in_range(size);
        let drawn = random.bounded(size);
        lemma_swapped(values, size - 1, drawn.0);
        law_shuffling_permutes(swapped(values, size - 1, drawn.0), size - 1, drawn.1);
    }
}

/// Sequences that hold the same hold the same bounds.
proof fn lemma_same_bound(a: Seq<usize>, b: Seq<usize>, bound: int)
    requires
        a.to_multiset() == b.to_multiset(),
        forall|j: int| 0 <= j < a.len() ==> #[trigger] a[j] < bound,
    ensures
        forall|j: int| 0 <= j < b.len() ==> #[trigger] b[j] < bound,
{
    broadcast use vstd::seq_lib::group_to_multiset_ensures;

    assert forall|j: int| 0 <= j < b.len() implies #[trigger] b[j] < bound by {
        assert(b.contains(b[j]));
        assert(b.to_multiset().count(b[j]) > 0);
        assert(a.contains(b[j]));
    }
}

/// The number of items in those of the stacks that are chosen.
pub open spec fn count_where(stacks: Seq<Stack>, chosen: spec_fn(Stack) -> bool) -> int
    decreases stacks.len(),
{
    if stacks.len() == 0 {
        0
    } else {
        count_where(stacks.drop_last(), chosen) + counted(stacks.last(), chosen)
    }
}

/// The number of items that a stack counts for.
pub open spec fn counted(stack: Stack, chosen: spec_fn(Stack) -> bool) -> int {
    if chosen(stack) {
        stack.count as int
    } else {
        0
    }
}

/// The number of items in stacks.
pub open spec fn item_count(stacks: Seq<Stack>) -> int {
    count_where(stacks, |stack: Stack| true)
}

/// The number of items in the stacks that differ from `kind` in nothing but the count:
/// those of the same item with the same components.
pub open spec fn kind_count(stacks: Seq<Stack>, kind: Stack) -> int {
    count_where(stacks, alike(kind))
}

/// The stacks that differ from `kind` in nothing but the count.
pub open spec fn alike(kind: Stack) -> spec_fn(Stack) -> bool {
    |stack: Stack| stack.with_count(0) == kind.with_count(0)
}

/// A choice that goes by the kind of a stack alone.
spec fn ignores_count(chosen: spec_fn(Stack) -> bool) -> bool {
    forall|stack: Stack, count: i32| chosen(#[trigger] stack.with_count(count)) == chosen(stack)
}

/// The stacks that are not empty.
pub open spec fn nonempty(stacks: Seq<Stack>) -> Seq<Stack> {
    stacks.filter(|stack: Stack| !stack.is_empty())
}

proof fn lemma_count_concat(a: Seq<Stack>, b: Seq<Stack>, chosen: spec_fn(Stack) -> bool)
    ensures
        count_where(a + b, chosen) == count_where(a, chosen) + count_where(b, chosen),
    decreases b.len(),
{
    if b.len() == 0 {
        assert(a + b =~= a);
    } else {
        assert((a + b).drop_last() =~= a + b.drop_last());
        lemma_count_concat(a, b.drop_last(), chosen);
    }
}

proof fn lemma_count_update(
    stacks: Seq<Stack>,
    i: int,
    stack: Stack,
    chosen: spec_fn(Stack) -> bool,
)
    requires
        0 <= i < stacks.len(),
    ensures
        count_where(stacks.update(i, stack), chosen) == count_where(stacks, chosen) - counted(
            stacks[i],
            chosen,
        ) + counted(stack, chosen),
    decreases stacks.len(),
{
    if i == stacks.len() - 1 {
        assert(stacks.update(i, stack).drop_last() =~= stacks.drop_last());
    } else {
        assert(stacks.update(i, stack).drop_last() =~= stacks.drop_last().update(i, stack));
        lemma_count_update(stacks.drop_last(), i, stack, chosen);
    }
}

proof fn lemma_count_remove(stacks: Seq<Stack>, i: int, chosen: spec_fn(Stack) -> bool)
    requires
        0 <= i < stacks.len(),
    ensures
        count_where(stacks.remove(i), chosen) == count_where(stacks, chosen) - counted(
            stacks[i],
            chosen,
        ),
    decreases stacks.len(),
{
    if i == stacks.len() - 1 {
        assert(stacks.remove(i) =~= stacks.drop_last());
    } else {
        assert(stacks.remove(i).drop_last() =~= stacks.drop_last().remove(i));
        lemma_count_remove(stacks.drop_last(), i, chosen);
    }
}

proof fn lemma_count_shuffled<R: Random>(
    stacks: Seq<Stack>,
    size: int,
    random: R,
    chosen: spec_fn(Stack) -> bool,
)
    requires
        0 <= size <= stacks.len(),
        random.valid(),
    ensures
        count_where(shuffled(stacks, size, random).0, chosen) == count_where(stacks, chosen),
    decreases size,
{
    if 2 <= size <= i32::MAX {
        random.law_draws_stay_in_range(size);
        let drawn = random.bounded(size);
        lemma_count_update(stacks, size - 1, stacks[drawn.0], chosen);
        lemma_count_update(
            stacks.update(size - 1, stacks[drawn.0]),
            drawn.0,
            stacks[size - 1],
            chosen,
        );
        lemma_count_shuffled(swapped(stacks, size - 1, drawn.0), size - 1, drawn.1, chosen);
    }
}

proof fn lemma_count_pieces(stack: Stack, max: int, left: int, chosen: spec_fn(Stack) -> bool)
    requires
        0 < max <= i32::MAX,
        0 <= left <= i32::MAX,
        ignores_count(chosen),
    ensures
        count_where(pieces(stack, max, left), chosen) == if chosen(stack) {
            left
        } else {
            0
        },
        forall|i: int|
            0 <= i < pieces(stack, max, left).len() ==> {
                let piece = #[trigger] pieces(stack, max, left)[i];
                0 < piece.count <= max && piece == stack.with_count(piece.count)
            },
    decreases left,
{
    if left > 0 {
        let count = if left < max {
            left
        } else {
            max
        };
        let first = stack.with_count(count as i32);
        let rest = pieces(stack, max, left - count);
        lemma_count_pieces(stack, max, left - count, chosen);
        lemma_count_concat(seq![first], rest, chosen);
        assert(seq![first].drop_last() =~= Seq::empty());
        assert(count_where(seq![first], chosen) == counted(first, chosen)) by {
            reveal_with_fuel(count_where, 2);
        }
        assert forall|i: int| 0 <= i < pieces(stack, max, left).len() implies {
            let piece = #[trigger] pieces(stack, max, left)[i];
            0 < piece.count <= max && piece == stack.with_count(piece.count)
        } by {
            if i > 0 {
                assert(pieces(stack, max, left)[i] == rest[i - 1]);
            }
        }
    }
}

proof fn lemma_splitting_keeps_items(stacks: Seq<Stack>, chosen: spec_fn(Stack) -> bool)
    requires
        ignores_count(chosen),
    ensures
        count_where(split_all(stacks), chosen) == count_where(nonempty(stacks), chosen),
        forall|i: int|
            0 <= i < split_all(stacks).len() ==> {
                let piece = #[trigger] split_all(stacks)[i];
                &&& 0 < piece.count <= piece.max_stack_size()
                &&& exists|j: int|
                    0 <= j < stacks.len() && piece == (#[trigger] stacks[j]).with_count(piece.count)
            },
    decreases stacks.len(),
{
    reveal(Seq::filter);
    if stacks.len() > 0 {
        let before = stacks.drop_last();
        let stack = stacks.last();
        let made = split_one(stack);
        lemma_splitting_keeps_items(before, chosen);
        lemma_count_concat(split_all(before), made, chosen);
        lemma_count_pieces(stack, stack.max_stack_size() as int, if stack.count < 0 {
            0
        } else {
            stack.count as int
        }, chosen);
        assert(count_where(seq![stack], chosen) == counted(stack, chosen)) by {
            reveal_with_fuel(count_where, 2);
            assert(seq![stack].drop_last() =~= Seq::empty());
        }
        assert(count_where(made, chosen) == if stack.is_empty() {
            0
        } else {
            counted(stack, chosen)
        });
        if !stack.is_empty() {
            assert(nonempty(stacks).drop_last() =~= nonempty(before));
        }
        assert forall|i: int| 0 <= i < split_all(stacks).len() implies {
            let piece = #[trigger] split_all(stacks)[i];
            &&& 0 < piece.count <= piece.max_stack_size()
            &&& exists|j: int|
                0 <= j < stacks.len() && piece == (#[trigger] stacks[j]).with_count(piece.count)
        } by {
            let piece = split_all(stacks)[i];
            if i < split_all(before).len() {
                assert(piece == split_all(before)[i]);
                let j = choose|j: int|
                    0 <= j < before.len() && piece == (#[trigger] before[j]).with_count(
                        piece.count,
                    );
                assert(stacks[j] == before[j]);
            } else {
                assert(piece == made[i - split_all(before).len()]);
                assert(piece == stacks[stacks.len() - 1].with_count(piece.count));
            }
        }
    }
}

/// Cutting generated items into stacks loses and adds nothing, of any item with its
/// components and in all, and every stack is one of the items, in a count that one
/// stack of it holds.
pub proof fn law_splitting_keeps_items(stacks: Seq<Stack>, kind: Stack)
    ensures
        kind_count(split_all(stacks), kind) == kind_count(nonempty(stacks), kind),
        item_count(split_all(stacks)) == item_count(nonempty(stacks)),
        forall|i: int|
            0 <= i < split_all(stacks).len() ==> {
                let piece = #[trigger] split_all(stacks)[i];
                &&& 0 < piece.count <= piece.max_stack_size()
                &&& exists|j: int|
                    0 <= j < stacks.len() && piece == (#[trigger] stacks[j]).with_count(piece.count)
            },
{
    lemma_alike_ignores_count(kind);
    lemma_splitting_keeps_items(stacks, alike(kind));
    lemma_splitting_keeps_items(stacks, |stack: Stack| true);
}

proof fn lemma_alike_ignores_count(kind: Stack)
    ensures
        ignores_count(alike(kind)),
{
    assert forall|stack: Stack, count: i32|
        alike(kind)(#[trigger] stack.with_count(count)) == alike(kind)(stack) by {
        assert(stack.with_count(count).with_count(0) == stack.with_count(0));
    }
}

proof fn lemma_again_keeps_items<R: Random>(
    piece: Stack,
    single: Seq<Stack>,
    splittable: Seq<Stack>,
    random: R,
    chosen: spec_fn(Stack) -> bool,
)
    ensures
        ({
            let after = again(piece, single, splittable, random);
            count_where(after.0, chosen) + count_where(after.1, chosen) == count_where(
                single,
                chosen,
            ) + count_where(splittable, chosen) + counted(piece, chosen)
        }),
{
    assert(single.push(piece).drop_last() =~= single);
    assert(splittable.push(piece).drop_last() =~= splittable);
}

proof fn lemma_cut_keeps_items<R: Random>(
    single: Seq<Stack>,
    splittable: Seq<Stack>,
    slots: int,
    random: R,
    chosen: spec_fn(Stack) -> bool,
)
    requires
        random.valid(),
        ignores_count(chosen),
        forall|i: int| 0 <= i < splittable.len() ==> (#[trigger] splittable[i]).count > 1,
    ensures
        count_where(cut(single, splittable, slots, random).0, chosen) == count_where(
            single,
            chosen,
        ) + count_where(splittable, chosen),
        cut(single, splittable, slots, random).1.valid(),
    decreases slots - single.len() - splittable.len(),
{
    if single.len() + splittable.len() >= slots || splittable.len() == 0 || splittable.len()
        > i32::MAX {
        lemma_count_concat(single, splittable, chosen);
    } else {
        random.law_draws_stay_in_range(splittable.len() as int);
        let drawn = random.bounded(splittable.len() as int);
        let item = splittable[drawn.0];
        let rest = splittable.remove(drawn.0);
        let half = item.count as int / 2;
        drawn.1.law_draws_stay_in_range(half);
        let amount = between(drawn.1, 1, half);
        assert(drawn.1.bounded(half - 1 + 1) == drawn.1.bounded(half));
        let kept = item.with_count((item.count - amount.0) as i32);
        let split = item.with_count(amount.0 as i32);
        let first = again(kept, single, rest, amount.1);
        let second = again(split, first.0, first.1, first.2);
        amount.1.law_draws_stay_in_range(1);
        first.2.law_draws_stay_in_range(1);
        lemma_count_remove(splittable, drawn.0, chosen);
        lemma_again_keeps_items(kept, single, rest, amount.1, chosen);
        lemma_again_keeps_items(split, first.0, first.1, first.2, chosen);
        assert(kept.count + split.count == item.count);
        assert(counted(kept, chosen) + counted(split, chosen) == counted(item, chosen));
        lemma_cut_keeps_items(second.0, second.1, slots, second.2, chosen);
    }
}

proof fn lemma_parts_keep_items(stacks: Seq<Stack>, chosen: spec_fn(Stack) -> bool)
    ensures
        count_where(singles(stacks), chosen) + count_where(several(stacks), chosen) == count_where(
            nonempty(stacks),
            chosen,
        ),
        forall|i: int| 0 <= i < several(stacks).len() ==> (#[trigger] several(stacks)[i]).count > 1,
    decreases stacks.len(),
{
    reveal(Seq::filter);
    if stacks.len() > 0 {
        let before = stacks.drop_last();
        lemma_parts_keep_items(before, chosen);
        let stack = stacks.last();
        assert(singles(before).push(stack).drop_last() =~= singles(before));
        assert(several(before).push(stack).drop_last() =~= several(before));
        assert(nonempty(before).push(stack).drop_last() =~= nonempty(before));
        assert forall|i: int| 0 <= i < several(stacks).len() implies (
        #[trigger] several(stacks)[i]).count > 1 by {
            if i < several(before).len() {
                assert(several(stacks)[i] == several(before)[i]);
            }
        }
    }
}

proof fn lemma_spreading_keeps_items<R: Random>(
    stacks: Seq<Stack>,
    slots: int,
    random: R,
    chosen: spec_fn(Stack) -> bool,
)
    requires
        random.valid(),
        ignores_count(chosen),
    ensures
        count_where(spread(stacks, slots, random).0, chosen) == count_where(
            nonempty(stacks),
            chosen,
        ),
{
    lemma_parts_keep_items(stacks, chosen);
    lemma_cut_keeps_items(singles(stacks), several(stacks), slots, random, chosen);
    let (pieces, after) = cut(singles(stacks), several(stacks), slots, random);
    lemma_count_shuffled(pieces, pieces.len() as int, after, chosen);
}

/// Spreading stacks over places loses and adds no item, of any item with its components
/// and in all.
pub proof fn law_spreading_keeps_items<R: Random>(
    stacks: Seq<Stack>,
    slots: int,
    random: R,
    kind: Stack,
)
    requires
        random.valid(),
    ensures
        kind_count(spread(stacks, slots, random).0, kind) == kind_count(nonempty(stacks), kind),
        item_count(spread(stacks, slots, random).0) == item_count(nonempty(stacks)),
{
    lemma_alike_ignores_count(kind);
    lemma_spreading_keeps_items(stacks, slots, random, alike(kind));
    lemma_spreading_keeps_items(stacks, slots, random, |stack: Stack| true);
}

proof fn lemma_empty_places(items: Seq<Stack>)
    requires
        items.len() <= usize::MAX,
    ensures
        forall|j: int|
            0 <= j < empty_places(items).len() ==> (#[trigger] empty_places(items)[j])
                < items.len() && items[empty_places(items)[j] as int].is_empty(),
    decreases items.len(),
{
    if items.len() > 0 {
        lemma_empty_places(items.drop_last());
        assert forall|j: int| 0 <= j < empty_places(items).len() implies (
        #[trigger] empty_places(items)[j]) < items.len() && items[empty_places(
            items,
        )[j] as int].is_empty() by {
            let before = empty_places(items.drop_last());
            if j < before.len() {
                assert(empty_places(items)[j] == before[j]);
                assert(items.drop_last()[before[j] as int] == items[before[j] as int]);
            }
        }
    }
}

proof fn lemma_placed_elsewhere(items: Seq<Stack>, places: Seq<usize>, stacks: Seq<Stack>, i: int)
    requires
        0 <= i < items.len(),
        forall|j: int| 0 <= j < places.len() ==> #[trigger] places[j] < items.len() && places[j] != i,
    ensures
        placed(items, places, stacks).len() == items.len(),
        placed(items, places, stacks)[i] == items[i],
    decreases stacks.len(),
{
    if stacks.len() > 0 && places.len() > 0 {
        assert(places[places.len() - 1] != i);
        lemma_placed_elsewhere(
            items.update(places.last() as int, stacks[0]),
            places.drop_last(),
            stacks.drop_first(),
            i,
        );
    }
}

proof fn lemma_filling_keeps_occupied_slots<R: Random, M: ExplorationMapResolver>(
    table: LootTable,
    items: Seq<Stack>,
    context: LootContext,
    state: Eval<R, M>,
    slot: int,
)
    requires
        items.len() <= usize::MAX,
        table.generated(context, state).1.valid(),
        0 <= slot < items.len(),
        !items[slot].is_empty(),
    ensures
        table.filled(items, context, state).0 matches Ok(after) ==> after.len() == items.len()
            && after[slot] == items[slot],
{
    broadcast use vstd::seq_lib::group_to_multiset_ensures;

    if let (Ok(stacks), after) = table.generated(context, state) {
        let empty = empty_places(items);
        lemma_empty_places(items);
        law_shuffling_permutes(empty, empty.len() as int, after.random);
        let (places, random) = shuffled(empty, empty.len() as int, after.random);
        assert forall|j: int| 0 <= j < places.len() implies #[trigger] places[j] < items.len()
            && places[j] != slot by {
            assert(places.contains(places[j]));
            assert(places.to_multiset().count(places[j]) > 0);
            assert(empty.contains(places[j]));
        }
        let (pieces, _) = spread(stacks, places.len() as int, random);
        lemma_placed_elsewhere(items, places, pieces, slot);
    }
}

/// A generated item is split into full stacks and one with what is left: every stack but
/// the last holds the most that it can, and the last at least one item.
pub proof fn law_split_stacks_are_full_but_the_last(stack: Stack, i: int)
    requires
        0 <= i < split_one(stack).len(),
    ensures
        ({
            let split = split_one(stack);
            &&& split[i] == (Stack { count: split[i].count, ..stack })
            &&& 1 <= split[i].count <= stack.max_stack_size()
            &&& i < split.len() - 1 ==> split[i].count == stack.max_stack_size()
        }),
{
    if !stack.is_empty() && stack.count >= stack.max_stack_size() {
        lemma_pieces_are_full(stack, stack.max_stack_size() as int, stack.count as int, i);
    }
}

proof fn lemma_pieces_are_full(stack: Stack, max: int, left: int, i: int)
    requires
        1 <= max <= i32::MAX,
        left <= i32::MAX,
        0 <= i < pieces(stack, max, left).len(),
    ensures
        ({
            let cut = pieces(stack, max, left);
            &&& cut[i] == (Stack { count: cut[i].count, ..stack })
            &&& 1 <= cut[i].count <= max
            &&& i < cut.len() - 1 ==> cut[i].count == max
        }),
    decreases left,
{
    if left > 0 {
        let count = if left < max {
            left
        } else {
            max
        };
        let rest = pieces(stack, max, left - count);
        let cut = pieces(stack, max, left);
        assert(cut == seq![stack.with_count(count as i32)] + rest);
        if i > 0 {
            assert(cut[i] == rest[i - 1]);
            lemma_pieces_are_full(stack, max, left - count, i - 1);
        } else if cut.len() > 1 {
            assert(left > count);
        }
    }
}

/// Shuffling draws for the last place among all of them, and then for the others alone:
/// each value comes last by just one draw.
pub proof fn law_shuffling_draws_every_place<T, R: Random>(
    values: Seq<T>,
    size: int,
    random: R,
)
    requires
        random.valid(),
        2 <= size <= values.len(),
        size <= i32::MAX,
    ensures
        ({
            let drawn = random.bounded(size).0;
            let after = shuffled(values, size, random).0;
            &&& after.len() == values.len()
            &&& after[size - 1] == values[drawn]
            &&& forall|i: int| size <= i < values.len() ==> #[trigger] after[i] == values[i]
        }),
{
    random.law_draws_stay_in_range(size);
    let drawn = random.bounded(size);
    let moved = swapped(values, size - 1, drawn.0);
    lemma_shuffling_keeps_the_rest(moved, size - 1, drawn.1);
    assert(moved[size - 1] == values[drawn.0]);
    assert forall|i: int| size <= i < values.len() implies #[trigger] shuffled(
        values,
        size,
        random,
    ).0[i] == values[i] by {
        assert(moved[i] == values[i]);
    }
}

proof fn lemma_shuffling_keeps_the_rest<T, R: Random>(values: Seq<T>, size: int, random: R)
    requires
        random.valid(),
        size <= values.len(),
    ensures
        shuffled(values, size, random).0.len() == values.len(),
        forall|i: int|
            size <= i < values.len() ==> #[trigger] shuffled(values, size, random).0[i]
                == values[i],
    decreases size,
{
    if 2 <= size <= i32::MAX {
        random.law_draws_stay_in_range(size);
        let drawn = random.bounded(size);
        let moved = swapped(values, size - 1, drawn.0);
        lemma_shuffling_keeps_the_rest(moved, size - 1, drawn.1);
        assert forall|i: int| size <= i < values.len() implies #[trigger] shuffled(
            values,
            size,
            random,
        ).0[i] == values[i] by {
            assert(moved[i] == values[i]);
        }
    }
}

/// Cutting stacks up makes no more of them than there are slots, unless there were more
/// before; and it does not stop before, as long as there is one to cut.
pub proof fn law_cutting_fills_the_slots<R: Random>(
    single: Seq<Stack>,
    splittable: Seq<Stack>,
    slots: int,
    random: R,
)
    requires
        random.valid(),
        splittable.len() <= i32::MAX,
        0 <= slots <= i32::MAX,
        forall|i: int| 0 <= i < splittable.len() ==> (#[trigger] splittable[i]).count > 1,
    ensures
        ({
            let before = single.len() + splittable.len();
            let after = cut(single, splittable, slots, random).0.len();
            &&& after >= before
            &&& before <= slots ==> after <= slots
            &&& before >= slots ==> after == before
            &&& before < slots && splittable.len() > 0 ==> after > before
        }),
    decreases slots - single.len() - splittable.len(),
{
    if single.len() + splittable.len() < slots && splittable.len() > 0 {
        random.law_draws_stay_in_range(splittable.len() as int);
        let drawn = random.bounded(splittable.len() as int);
        let item = splittable[drawn.0];
        let rest = splittable.remove(drawn.0);
        assert forall|i: int| 0 <= i < rest.len() implies (#[trigger] rest[i]).count > 1 by {
            assert(rest[i] == splittable[if i < drawn.0 {
                i
            } else {
                i + 1
            }]);
        }
        let half = item.count as int / 2;
        drawn.1.law_draws_stay_in_range(half);
        let amount = between(drawn.1, 1, half);
        let kept = item.with_count((item.count - amount.0) as i32);
        let part = item.with_count(amount.0 as i32);
        amount.1.law_draws_stay_in_range(1);
        let first = again(kept, single, rest, amount.1);
        first.2.law_draws_stay_in_range(1);
        let second = again(part, first.0, first.1, first.2);
        law_cutting_fills_the_slots(second.0, second.1, slots, second.2);
    }
}

/// The empty places are just those where nothing lies, each of them once, in order.
pub proof fn law_empty_places_are_where_nothing_lies(items: Seq<Stack>)
    requires
        items.len() <= usize::MAX,
    ensures
        ({
            let places = empty_places(items);
            &&& forall|i: int, j: int|
                0 <= i < j < places.len() ==> (#[trigger] places[i]) < (#[trigger] places[j])
            &&& forall|i: int|
                0 <= i < places.len() ==> (#[trigger] places[i]) < items.len()
                    && items[places[i] as int].is_empty()
            &&& forall|at: int|
                0 <= at < items.len() && (#[trigger] items[at]).is_empty() ==> places.contains(
                    at as usize,
                )
        }),
    decreases items.len(),
{
    if items.len() > 0 {
        let earlier = items.drop_last();
        let before = empty_places(earlier);
        let places = empty_places(items);
        law_empty_places_are_where_nothing_lies(earlier);
        assert forall|i: int| 0 <= i < places.len() implies (#[trigger] places[i]) < items.len()
            && items[places[i] as int].is_empty() by {
            if i < before.len() {
                assert(before[i] < earlier.len());
                assert(earlier[before[i] as int] == items[before[i] as int]);
            }
        }
        assert forall|i: int, j: int| 0 <= i < j < places.len() implies (#[trigger] places[i]) < (
        #[trigger] places[j]) by {
            if j < before.len() {
                assert(before[i] < before[j]);
            } else {
                assert(before[i] < earlier.len());
            }
        }
        assert forall|at: int|
            0 <= at < items.len() && (#[trigger] items[at]).is_empty() implies places.contains(
            at as usize,
        ) by {
            if at < earlier.len() {
                assert(earlier[at].is_empty());
                let k = choose|k: int| 0 <= k < before.len() && before[k] == at as usize;
                assert(places[k] == at as usize);
            } else {
                assert(places[places.len() - 1] == at as usize);
            }
        }
    }
}

/// Stacks are put into places from the last place on, one into each; every other place
/// stays as it is.
pub proof fn law_stacks_are_put_into_places(
    items: Seq<Stack>,
    places: Seq<usize>,
    stacks: Seq<Stack>,
)
    requires
        forall|i: int| 0 <= i < places.len() ==> (#[trigger] places[i]) < items.len(),
        forall|i: int, j: int|
            0 <= i < j < places.len() ==> (#[trigger] places[i]) != (#[trigger] places[j]),
    ensures
        ({
            let after = placed(items, places, stacks);
            &&& after.len() == items.len()
            &&& forall|k: int|
                0 <= k < stacks.len() && k < places.len() ==> after[places[places.len() - 1 - k] as int]
                    == #[trigger] stacks[k]
            &&& forall|at: int|
                0 <= at < items.len() && !places.contains(at as usize) ==> #[trigger] after[at]
                    == items[at]
        }),
    decreases stacks.len(),
{
    if stacks.len() > 0 && places.len() > 0 {
        let last = places.last() as int;
        let put = items.update(last, stacks[0]);
        let fewer = places.drop_last();
        let rest = stacks.drop_first();
        assert forall|i: int| 0 <= i < fewer.len() implies (#[trigger] fewer[i]) < put.len() by {
            assert(fewer[i] == places[i]);
        }
        assert forall|i: int, j: int| 0 <= i < j < fewer.len() implies (#[trigger] fewer[i]) != (
        #[trigger] fewer[j]) by {
            assert(fewer[i] == places[i]);
            assert(fewer[j] == places[j]);
        }
        law_stacks_are_put_into_places(put, fewer, rest);
        let after = placed(items, places, stacks);
        assert(after == placed(put, fewer, rest));
        assert(!fewer.contains(places.last())) by {
            if fewer.contains(places.last()) {
                let k = choose|k: int| 0 <= k < fewer.len() && fewer[k] == places.last();
                assert(places[k] == places[places.len() - 1]);
            }
        }
        assert forall|k: int| 0 <= k < stacks.len() && k < places.len() implies after[places[
            places.len() - 1 - k
        ] as int] == #[trigger] stacks[k] by {
            if k > 0 {
                assert(rest[k - 1] == stacks[k]);
                assert(fewer[fewer.len() - 1 - (k - 1)] == places[places.len() - 1 - k]);
            } else {
                assert(after[last] == put[last]);
            }
        }
        assert forall|at: int|
            0 <= at < items.len() && !places.contains(at as usize) implies #[trigger] after[at]
            == items[at] by {
            assert(!fewer.contains(at as usize)) by {
                if fewer.contains(at as usize) {
                    let k = choose|k: int| 0 <= k < fewer.len() && fewer[k] == at as usize;
                    assert(places[k] == at as usize);
                }
            }
            assert(places[places.len() - 1] == places.last());
            assert(at != last);
            assert(after[at] == put[at]);
        }
    }
}

/// A stack that is cut gives away at least one item and at most half of them, every
/// number as often as another.
pub proof fn law_cut_gives_away_up_to_half<R: Random>(item: Stack, random: R)
    requires
        random.valid(),
        item.count > 1,
    ensures
        ({
            let pieces = cut(Seq::empty(), seq![item], 2, random).0;
            let half = item.count as int / 2;
            let drawn = random.bounded(1).1.bounded(half).0;
            let less = if pieces[0].count <= pieces[1].count {
                pieces[0].count as int
            } else {
                pieces[1].count as int
            };
            &&& pieces.len() == 2
            &&& pieces[0].count + pieces[1].count == item.count
            &&& 1 <= less <= half
            &&& less == 1 + drawn
        }),
{
    let none = Seq::<Stack>::empty();
    let one = seq![item];
    random.law_draws_stay_in_range(1);
    let drawn = random.bounded(1);
    let half = item.count as int / 2;
    drawn.1.law_draws_stay_in_range(half);
    let amount = between(drawn.1, 1, half);
    let kept = item.with_count((item.count - amount.0) as i32);
    let part = item.with_count(amount.0 as i32);
    let rest = one.remove(0);
    assert(rest =~= none);
    assert(one[drawn.0] == item);
    let first = again(kept, none, rest, amount.1);
    let second = again(part, first.0, first.1, first.2);
    assert(second.0.len() + second.1.len() == 2);
    assert(cut(second.0, second.1, 2, second.2).0 == second.0 + second.1);
    assert(cut(none, one, 2, random).0 == second.0 + second.1);
}

} // verus!
