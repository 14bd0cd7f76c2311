//! Enchantment levels on item stacks.
use vstd::prelude::*;

use crate::data_components::{number_of, record_in, ComponentKind, DataComponentGetter};
use crate::ident::{vanilla_id, Id, Identifier};
use crate::item_stack::{ItemStack, Stack};
use crate::keyed::{by_key, contains_id, find, holds_id};
use crate::loot_table::item_ops::{enchanted, transmuted};
use crate::nbt::{lookup, Nbt, NbtTag};
use crate::random::{between, next_i32_between, Random, UNIT_STEPS};
use crate::registry::{Enchantment, Registry};

verus! {

/// The greatest level that an enchantment has on an item.
pub const MAX_LEVEL: i32 = 255;

/// The component that holds an item's enchantments: books keep theirs stored.
pub open spec fn enchantment_component(item: Id) -> Id {
    if item == vanilla_id("enchanted_book"@) {
        vanilla_id("stored_enchantments"@)
    } else {
        vanilla_id("enchantments"@)
    }
}

/// The enchantments of a stack: levels by the texts of their identifiers.
pub open spec fn enchantments_of(stack: Stack) -> Seq<(Seq<char>, Nbt)> {
    match record_in(
        stack.component(enchantment_component(stack.item)),
        ComponentKind::Enchantments,
    ) {
        Some(entries) => entries,
        None => Seq::empty(),
    }
}

/// The level of an enchantment; what is no level from 1 to `MAX_LEVEL` counts as none.
pub open spec fn level_of(stack: Stack, enchantment: Id) -> int {
    match lookup(enchantments_of(stack), enchantment.text()) {
        Some(Nbt::Int(level)) => if 1 <= level <= MAX_LEVEL {
            level as int
        } else {
            0
        },
        _ => 0,
    }
}

/// The level of an enchantment on a tool; none without a tool.
pub open spec fn level_on(tool: Option<Stack>, enchantment: Id) -> int {
    match tool {
        Some(tool) => level_of(tool, enchantment),
        None => 0,
    }
}

impl ItemStack {
    /// The level of an enchantment on this stack.
    pub fn get_enchantment_level(&self, enchantment: &Identifier) -> (level: i32)
        ensures
            level == level_of(self@, enchantment@),
            0 <= level <= MAX_LEVEL,
    {
        let path = if self.is("enchanted_book") {
            "stored_enchantments"
        } else {
            "enchantments"
        };
        let key = Identifier::vanilla(path);
        let data = match self.get_raw(&key) {
            Some(data) => data,
            None => {
                return 0;
            },
        };
        match data.as_record(ComponentKind::Enchantments) {
            Some(entries) => {
                let name = enchantment.text();
                match entries.get_int(name.as_str()) {
                    Some(level) => if 1 <= level && level <= MAX_LEVEL {
                        level
                    } else {
                        0
                    },
                    None => 0,
                }
            },
            None => 0,
        }
    }
}

/// Whether an enchantment can be put on an item. Every enchantment can be put on a book.
pub open spec fn can_enchant(enchantment: &Enchantment, item: Id) -> bool {
    item == vanilla_id("book"@) || holds_id(enchantment.supported_items@, item)
}

/// The stack that enchantments are put on: a book becomes an enchanted book.
pub open spec fn made_book(stack: Stack, registry: Registry) -> Stack {
    if stack.item == vanilla_id("book"@) {
        match find(registry.items@, vanilla_id("enchanted_book"@)) {
            Some(item) => transmuted(stack, item),
            None => stack,
        }
    } else {
        stack
    }
}

/// The enchantments among `options` that can be put on an item.
pub open spec fn suitable(options: Seq<&Enchantment>, item: Id) -> Seq<&Enchantment> {
    options.filter(|enchantment: &Enchantment| can_enchant(enchantment, item))
}

/// The greatest level of an enchantment from `level` down that `cost` pays for, and
/// no more than pays for; `min_level - 1` where there is none.
pub open spec fn level_for(enchantment: &Enchantment, cost: int, level: int) -> int
    decreases level - enchantment.min_level + 1,
{
    let above = level - 1;
    if level < enchantment.min_level {
        enchantment.min_level - 1
    } else if enchantment.min_cost + enchantment.min_cost_per_level * above <= cost
        <= enchantment.max_cost + enchantment.max_cost_per_level * above {
        level
    } else {
        level_for(enchantment, cost, level - 1)
    }
}

/// The enchantments, with their levels, that a cost buys for an item.
pub open spec fn offers(options: Seq<&Enchantment>, item: Id, cost: int) -> Seq<
    (&Enchantment, i32),
>
    decreases options.len(),
{
    if options.len() == 0 {
        Seq::empty()
    } else {
        let before = offers(options.drop_last(), item, cost);
        let enchantment = options.last();
        let level = level_for(enchantment, cost, enchantment.max_level as int);
        if can_enchant(enchantment, item) && level >= enchantment.min_level {
            before.push((enchantment, level as i32))
        } else {
            before
        }
    }
}

/// The sum of the weights, not counting what is beyond the range of `i32`.
pub open spec fn total_weight(offered: Seq<(&Enchantment, i32)>) -> int
    decreases offered.len(),
{
    if offered.len() == 0 {
        0
    } else {
        let weight = offered.last().0.weight;
        let sum = total_weight(offered.drop_last()) + (if weight > 0 {
            weight as int
        } else {
            0
        });
        if sum > i32::MAX {
            i32::MAX as int
        } else {
            sum
        }
    }
}

/// The place at which a draw below the total weight falls.
pub open spec fn weighted_place(offered: Seq<(&Enchantment, i32)>, draw: int) -> int
    decreases offered.len(),
{
    if offered.len() == 0 {
        0
    } else {
        let weight = if offered[0].0.weight > 0 {
            offered[0].0.weight as int
        } else {
            0
        };
        if draw < weight {
            0
        } else {
            1 + weighted_place(offered.drop_first(), draw - weight)
        }
    }
}

/// Whether two enchantments can be on one item.
pub open spec fn compatible(a: &Enchantment, b: &Enchantment) -> bool {
    a.key@ != b.key@ && !holds_id(a.exclusive_with@, b.key@) && !holds_id(
        b.exclusive_with@,
        a.key@,
    )
}

/// The offers that can join a chosen enchantment.
pub open spec fn joining<'a>(offered: Seq<(&'a Enchantment, i32)>, chosen: &Enchantment) -> Seq<
    (&'a Enchantment, i32),
> {
    offered.filter(|offer: (&Enchantment, i32)| compatible(offer.0, chosen))
}

/// The offers drawn one after another, and the state after them: each draw is by
/// weight, later ones are made with falling probability and from what can join the
/// ones before.
pub open spec fn drawn_offers<R: Random>(
    offered: Seq<(&Enchantment, i32)>,
    cost: int,
    random: R,
) -> (Seq<(&Enchantment, i32)>, R)
    decreases offered.len(),
{
    let total = total_weight(offered);
    if total <= 0 {
        (Seq::empty(), random)
    } else {
        let drawn = random.bounded(total);
        let place = weighted_place(offered, drawn.0);
        if 0 <= place < offered.len() {
            let chosen = offered[place];
            let again = drawn.1.bounded(50);
            let rest = joining(offered, chosen.0);
            if again.0 <= cost && rest.len() < offered.len() {
                let more = drawn_offers(rest, cost / 2, again.1);
                (seq![chosen] + more.0, more.1)
            } else {
                (seq![chosen], again.1)
            }
        } else {
            (Seq::empty(), drawn.1)
        }
    }
}

/// The cost that is paid for, from the level asked for, the item's enchantability
/// and two bonus and two spread draws; it is rounded to the nearest integer.
pub open spec fn spread_cost(level: int, first: int, second: int, a: int, b: int) -> int {
    let base = level + 1 + first + second;
    let steps = UNIT_STEPS as int;
    let scaled = base * (100 * steps + 15 * (a + b - steps));
    let cost = (2 * scaled + 100 * steps) / (200 * steps);
    if cost < 1 {
        1
    } else if cost > i32::MAX {
        i32::MAX as int
    } else {
        cost
    }
}

/// The enchantments that an enchanting at `level` yields, and the state after it.
/// An item that takes no enchantments yields none and draws nothing.
pub open spec fn drawn_enchantments<R: Random>(
    options: Seq<&Enchantment>,
    stack: Stack,
    level: int,
    random: R,
) -> (Seq<(&Enchantment, i32)>, R) {
    match number_of(stack.component(vanilla_id("enchantable"@)), ComponentKind::Enchantable) {
        Some(enchantability) => if enchantability > 0 {
            let bound = enchantability as int / 4 + 1;
            let first = random.bounded(bound);
            let second = first.1.bounded(bound);
            let a = second.1.unit();
            let b = a.1.unit();
            let cost = spread_cost(level, first.0, second.0, a.0, b.0);
            drawn_offers(offers(options, stack.item, cost), cost, b.1)
        } else {
            (Seq::empty(), random)
        },
        None => (Seq::empty(), random),
    }
}

/// The levels that drawn offers stand for.
pub open spec fn offered_levels(drawn: Seq<(&Enchantment, i32)>) -> Seq<(Identifier, i32)> {
    Seq::new(drawn.len(), |i: int| (drawn[i].0.key, drawn[i].1))
}

/// A stack after an enchanting at `level`, and the state after it.
pub open spec fn enchanted_with_levels<R: Random>(
    options: Seq<&Enchantment>,
    stack: Stack,
    level: int,
    registry: Registry,
    random: R,
) -> (Stack, R) {
    let drawn = drawn_enchantments(options, stack, level, random);
    (enchanted(made_book(stack, registry), offered_levels(drawn.0)), drawn.1)
}

/// A stack after one of the suitable enchantments was put on it at a random level,
/// and the state after the draws.
pub open spec fn enchanted_randomly<R: Random>(
    options: Seq<&Enchantment>,
    stack: Stack,
    registry: Registry,
    random: R,
) -> (Stack, R) {
    let choices = suitable(options, stack.item);
    if choices.len() == 0 || choices.len() > i32::MAX {
        (stack, random)
    } else {
        let place = random.bounded(choices.len() as int);
        let chosen = choices[place.0];
        let low = chosen.min_level as int;
        let high = if chosen.max_level < low {
            low
        } else if chosen.max_level - low >= i32::MAX {
            low + i32::MAX - 1
        } else {
            chosen.max_level as int
        };
        let level = between(place.1, low, high);
        (enchanted(made_book(stack, registry), seq![(chosen.key, level.0 as i32)]), level.1)
    }
}

impl Enchantment {
    /// Whether this can be put on an item.
    fn suits(&self, key: &Identifier) -> (suits: bool)
        ensures
            suits == can_enchant(self, key@),
    {
        key.is_vanilla("book") || contains_id(&self.supported_items, key)
    }

    fn is_compatible(&self, other: &Enchantment) -> (both: bool)
        ensures
            both == compatible(self, other),
    {
        !self.key.same(&other.key) && !contains_id(&self.exclusive_with, &other.key)
            && !contains_id(&other.exclusive_with, &self.key)
    }

    /// The greatest level that a cost pays for, where there is one.
    fn affordable(&self, cost: i32) -> (level: Option<i32>)
        ensures
            match level {
                Some(level) => level_for(self, cost as int, self.max_level as int) == level && level
                    >= self.min_level,
                None => level_for(self, cost as int, self.max_level as int) < self.min_level,
            },
    {
        let mut level: i32 = self.max_level;
        while level >= self.min_level
            invariant
                level_for(self, cost as int, self.max_level as int) == level_for(
                    self,
                    cost as int,
                    level as int,
                ),
            decreases level - self.min_level + 1,
        {
            let above: i128 = level as i128 - 1;
            let low_step: i32 = self.min_cost_per_level;
            let high_step: i32 = self.max_cost_per_level;
            assert(-0x8000_0000 * 0x8000_0001 <= low_step * above <= 0x8000_0000 * 0x8000_0001
                && -0x8000_0000 * 0x8000_0001 <= high_step * above <= 0x8000_0000 * 0x8000_0001)
                by (nonlinear_arith)
                requires
                    -0x8000_0001 <= above <= 0x8000_0000,
                    -0x8000_0000 <= low_step <= 0x7fff_ffff,
                    -0x8000_0000 <= high_step <= 0x7fff_ffff,
            ;
            let low: i128 = self.min_cost as i128 + low_step as i128 * above;
            let high: i128 = self.max_cost as i128 + high_step as i128 * above;
            if low <= cost as i128 && cost as i128 <= high {
                return Some(level);
            }
            if level == i32::MIN {
                assert(level_for(self, cost as int, level - 1) < self.min_level);
                return None;
            }
            level = level - 1;
        }
        None
    }
}

fn list_offers<'a>(options: &Vec<&'a Enchantment>, key: &Identifier, cost: i32) -> (offered: Vec<
    (&'a Enchantment, i32),
>)
    ensures
        offered@ == offers(options@, key@, cost as int),
{
    let mut offered: Vec<(&'a Enchantment, i32)> = Vec::new();
    let mut i: usize = 0;
    while i < options.len()
        invariant
            i <= options.len(),
            offered@ == offers(options@.take(i as int), key@, cost as int),
        decreases options.len() - i,
    {
        assert(options@.take(i + 1).drop_last() =~= options@.take(i as int));
        let enchantment = options[i];
        if enchantment.suits(key) {
            if let Some(level) = enchantment.affordable(cost) {
                offered.push((enchantment, level));
            }
        }
        i = i + 1;
    }
    assert(options@.take(i as int) =~= options@);
    offered
}

fn sum_weights(offered: &Vec<(&Enchantment, i32)>) -> (total: i32)
    ensures
        total == total_weight(offered@),
        total >= 0,
{
    let mut total: i64 = 0;
    let mut i: usize = 0;
    while i < offered.len()
        invariant
            i <= offered.len(),
            0 <= total <= i32::MAX,
            total == total_weight(offered@.take(i as int)),
        decreases offered.len() - i,
    {
        assert(offered@.take(i + 1).drop_last() =~= offered@.take(i as int));
        let weight: i32 = offered[i].0.weight;
        if weight > 0 {
            total = total + weight as i64;
        }
        if total > i32::MAX as i64 {
            total = i32::MAX as i64;
        }
        i = i + 1;
    }
    assert(offered@.take(i as int) =~= offered@);
    total as i32
}

fn find_place(offered: &Vec<(&Enchantment, i32)>, draw: i32) -> (place: usize)
    requires
        draw >= 0,
    ensures
        place == weighted_place(offered@, draw as int),
        place <= offered@.len(),
{
    let mut rest: i32 = draw;
    let mut i: usize = 0;
    assert(offered@.skip(0) =~= offered@);
    while i < offered.len()
        invariant
            i <= offered.len(),
            rest >= 0,
            weighted_place(offered@, draw as int) == i + weighted_place(
                offered@.skip(i as int),
                rest as int,
            ),
        decreases offered.len() - i,
    {
        assert(offered@.skip(i as int).drop_first() =~= offered@.skip(i + 1));
        let weight: i32 = offered[i].0.weight;
        if weight > 0 {
            if rest < weight {
                return i;
            }
            rest = rest - weight;
        }
        i = i + 1;
    }
    i
}

fn keep_joining<'a>(offered: &Vec<(&'a Enchantment, i32)>, chosen: &Enchantment) -> (rest: Vec<
    (&'a Enchantment, i32),
>)
    ensures
        rest@ == joining(offered@, chosen),
{
    let ghost keep = |offer: (&Enchantment, i32)| compatible(offer.0, chosen);
    let mut rest: Vec<(&'a Enchantment, i32)> = Vec::new();
    let mut i: usize = 0;
    proof {
        reveal(Seq::filter);
        assert(rest@ =~= offered@.take(0).filter(keep));
    }
    while i < offered.len()
        invariant
            i <= offered.len(),
            keep == (|offer: (&Enchantment, i32)| compatible(offer.0, chosen)),
            rest@ == offered@.take(i as int).filter(keep),
        decreases offered.len() - i,
    {
        proof {
            reveal(Seq::filter);
            assert(offered@.take(i + 1).drop_last() =~= offered@.take(i as int));
        }
        if offered[i].0.is_compatible(chosen) {
            rest.push(offered[i]);
        }
        i = i + 1;
    }
    assert(offered@.take(i as int) =~= offered@);
    rest
}

/// Draws offers one after another.
fn draw_offers<'a, R: Random>(
    offered: Vec<(&'a Enchantment, i32)>,
    cost: i32,
    random: &mut R,
) -> (drawn: Vec<(&'a Enchantment, i32)>)
    requires
        old(random).valid(),
        cost >= 0,
    ensures
        final(random).valid(),
        (drawn@, *final(random)) == drawn_offers(offered@, cost as int, *old(random)),
    decreases offered@.len(),
{
    let total: i32 = sum_weights(&offered);
    let mut drawn: Vec<(&'a Enchantment, i32)> = Vec::new();
    if total <= 0 {
        return drawn;
    }
    let draw: i32 = random.next_i32_bounded(total);
    let place: usize = find_place(&offered, draw);
    if place >= offered.len() {
        return drawn;
    }
    let chosen = offered[place];
    drawn.push(chosen);
    let again: i32 = random.next_i32_bounded(50);
    if again <= cost {
        let rest = keep_joining(&offered, chosen.0);
        if rest.len() < offered.len() {
            let mut more = draw_offers(rest, cost / 2, random);
            drawn.append(&mut more);
        }
    }
    assert(drawn@ =~= drawn_offers(offered@, cost as int, *old(random)).0);
    drawn
}

/// The cost of an enchanting.
fn pay(level: i32, first: i32, second: i32, a: u32, b: u32) -> (cost: i32)
    requires
        0 <= first,
        0 <= second,
        a < UNIT_STEPS,
        b < UNIT_STEPS,
    ensures
        cost == spread_cost(level as int, first as int, second as int, a as int, b as int),
        cost >= 1,
{
    let steps: i128 = 0x100_0000;
    let base: i128 = level as i128 + 1 + first as i128 + second as i128;
    let spread: i128 = 100 * steps + 15 * (a as i128 + b as i128 - steps);
    assert(-0x1_0000_0000_0000 * 0x1_0000_0000 <= base * spread <= 0x1_0000_0000_0000
        * 0x1_0000_0000) by (nonlinear_arith)
        requires
            -0x1_0000_0000 <= base <= 0x2_0000_0000,
            0 <= spread <= 0x8000_0000,
    ;
    let doubled: i128 = 2 * (base * spread) + 100 * steps;
    let divisor: i128 = 200 * steps;
    if doubled < 0 {
        assert(doubled as int / (divisor as int) < 1);
        return 1;
    }
    let cost: i128 = doubled / divisor;
    if cost < 1 {
        1
    } else if cost > i32::MAX as i128 {
        i32::MAX
    } else {
        cost as i32
    }
}

impl ItemStack {
    /// Makes a book an enchanted book.
    pub fn make_book(&mut self, registry: &Registry)
        ensures
            final(self)@ == made_book(old(self)@, *registry),
    {
        if self.is("book") {
            let key = Identifier::vanilla("enchanted_book");
            if let Some(item) = by_key(&registry.items, &key) {
                self.set_item(item);
            }
        }
    }

    /// Puts one of the suitable enchantments on this stack, at a random level.
    pub fn enchant_randomly<R: Random>(
        &mut self,
        options: &Vec<&Enchantment>,
        registry: &Registry,
        random: &mut R,
    )
        requires
            old(random).valid(),
        ensures
            final(random).valid(),
            (final(self)@, *final(random)) == enchanted_randomly(
                options@,
                old(self)@,
                *registry,
                *old(random),
            ),
    {
        let ghost item = self@.item;
        let ghost keep = |enchantment: &Enchantment| can_enchant(enchantment, item);
        let mut choices: Vec<&Enchantment> = Vec::new();
        let mut i: usize = 0;
        proof {
            reveal(Seq::filter);
            assert(choices@ =~= options@.take(0).filter(keep));
        }
        while i < options.len()
            invariant
                i <= options.len(),
                item == self@.item,
                keep == (|enchantment: &Enchantment| can_enchant(enchantment, item)),
                choices@ == options@.take(i as int).filter(keep),
            decreases options.len() - i,
        {
            proof {
                reveal(Seq::filter);
                assert(options@.take(i + 1).drop_last() =~= options@.take(i as int));
            }
            if options[i].suits(&self.item.key) {
                choices.push(options[i]);
            }
            i = i + 1;
        }
        assert(options@.take(i as int) =~= options@);
        if choices.len() == 0 || choices.len() > i32::MAX as usize {
            return;
        }
        let place: i32 = random.next_i32_bounded(choices.len() as i32);
        let chosen = choices[place as usize];
        let low: i32 = chosen.min_level;
        let high: i32 = if chosen.max_level < low {
            low
        } else if chosen.max_level as i64 - low as i64 >= i32::MAX as i64 {
            (low as i64 + i32::MAX as i64 - 1) as i32
        } else {
            chosen.max_level
        };
        let level: i32 = next_i32_between(random, low, high);
        self.make_book(registry);
        let mut levels: Vec<(Identifier, i32)> = Vec::new();
        levels.push((chosen.key.clone(), level));
        assert(levels@ =~= seq![(chosen.key, level)]);
        self.set_enchantments(&levels);
    }

    /// Enchants this stack as an enchanting table does.
    pub fn enchant_with_levels<R: Random>(
        &mut self,
        level: i32,
        options: &Vec<&Enchantment>,
        registry: &Registry,
        random: &mut R,
    )
        requires
            old(random).valid(),
        ensures
            final(random).valid(),
            (final(self)@, *final(random)) == enchanted_with_levels(
                options@,
                old(self)@,
                level as int,
                *registry,
                *old(random),
            ),
    {
        let mut drawn: Vec<(&Enchantment, i32)> = Vec::new();
        if let Some(enchantability) = self.get_number("enchantable", ComponentKind::Enchantable) {
            if enchantability > 0 {
                let bound: i32 = enchantability / 4 + 1;
                let first: i32 = random.next_i32_bounded(bound);
                let second: i32 = random.next_i32_bounded(bound);
                let a: u32 = random.next_unit();
                let b: u32 = random.next_unit();
                let cost: i32 = pay(level, first, second, a, b);
                let offered = list_offers(options, &self.item.key, cost);
                drawn = draw_offers(offered, cost, random);
            }
        }
        self.make_book(registry);
        let mut levels: Vec<(Identifier, i32)> = Vec::new();
        let mut i: usize = 0;
        while i < drawn.len()
            invariant
                i <= drawn.len(),
                levels.len() == i,
                forall|j: int| 0 <= j < i ==> levels@[j] == (drawn@[j].0.key, drawn@[j].1),
            decreases drawn.len() - i,
        {
            levels.push((drawn[i].0.key.clone(), drawn[i].1));
            i = i + 1;
        }
        assert(levels@ =~= offered_levels(drawn@));
        self.set_enchantments(&levels);
    }
}

/// Whether a cost pays for a level of an enchantment, and is not too much for it.
pub open spec fn pays_for(enchantment: &Enchantment, cost: int, level: int) -> bool {
    &&& cost >= enchantment.min_cost + (level - 1) * enchantment.min_cost_per_level
    &&& cost <= enchantment.max_cost + (level - 1) * enchantment.max_cost_per_level
}

/// The level that a cost buys is the greatest one that it pays for.
pub proof fn law_greatest_level_is_bought(enchantment: &Enchantment, cost: int, level: int)
    ensures
        ({
            let bought = level_for(enchantment, cost, level);
            &&& bought >= enchantment.min_level ==> bought <= level && pays_for(
                enchantment,
                cost,
                bought,
            )
            &&& forall|higher: int|
                bought < higher <= level && higher >= enchantment.min_level ==> !#[trigger] pays_for(
                    enchantment,
                    cost,
                    higher,
                )
        }),
    decreases level - enchantment.min_level + 1,
{
    let above = level - 1;
    let low = enchantment.min_cost_per_level as int;
    let high = enchantment.max_cost_per_level as int;
    assert(low * above == above * low) by (nonlinear_arith);
    assert(high * above == above * high) by (nonlinear_arith);
    if level >= enchantment.min_level && !pays_for(enchantment, cost, level) {
        law_greatest_level_is_bought(enchantment, cost, level - 1);
    }
}

/// Whether an enchantment can be bought for an item: it is one for that item, or the
/// item is a book, and the cost pays for one of its levels.
pub open spec fn is_for_sale(enchantment: &Enchantment, item: Id, cost: int) -> bool {
    &&& item == vanilla_id("book"@) || exists|i: int|
        0 <= i < enchantment.supported_items@.len() && (
        #[trigger] enchantment.supported_items@[i])@ == item
    &&& exists|level: int|
        enchantment.min_level <= level <= enchantment.max_level && #[trigger] pays_for(
            enchantment,
            cost,
            level,
        )
}

/// What is offered for an item is just what can be bought for it, each enchantment at
/// the greatest level that the cost pays for.
pub proof fn law_offers_are_what_can_be_bought(options: Seq<&Enchantment>, item: Id, cost: int)
    ensures
        forall|i: int|
            0 <= i < offers(options, item, cost).len() ==> {
                let offer = #[trigger] offers(options, item, cost)[i];
                &&& options.contains(offer.0)
                &&& is_for_sale(offer.0, item, cost)
                &&& offer.0.min_level <= offer.1 <= offer.0.max_level
                &&& pays_for(offer.0, cost, offer.1 as int)
            },
        forall|i: int|
            0 <= i < options.len() && is_for_sale(#[trigger] options[i], item, cost) ==> exists|
                j: int,
            |
                0 <= j < offers(options, item, cost).len() && (#[trigger] offers(
                    options,
                    item,
                    cost,
                )[j]).0 == options[i],
    decreases options.len(),
{
    if options.len() > 0 {
        let earlier = options.drop_last();
        let before = offers(earlier, item, cost);
        let all = offers(options, item, cost);
        law_offers_are_what_can_be_bought(earlier, item, cost);
        let last = options.last();
        law_greatest_level_is_bought(last, cost, last.max_level as int);
        let level = level_for(last, cost, last.max_level as int);
        if level >= last.min_level {
            assert(pays_for(last, cost, level));
        }
        assert(options[options.len() - 1] == last);
        assert(can_enchant(last, item) && level >= last.min_level <==> is_for_sale(last, item, cost));
        assert forall|i: int| 0 <= i < all.len() implies {
            let offer = #[trigger] all[i];
            &&& options.contains(offer.0)
            &&& is_for_sale(offer.0, item, cost)
            &&& offer.0.min_level <= offer.1 <= offer.0.max_level
            &&& pays_for(offer.0, cost, offer.1 as int)
        } by {
            if i < before.len() {
                assert(all[i] == before[i]);
                let k = choose|k: int| 0 <= k < earlier.len() && earlier[k] == before[i].0;
                assert(options[k] == before[i].0);
            }
        }
        assert forall|i: int|
            0 <= i < options.len() && is_for_sale(#[trigger] options[i], item, cost) implies exists|
            j: int,
        | 0 <= j < all.len() && (#[trigger] all[j]).0 == options[i] by {
            if i < earlier.len() {
                assert(earlier[i] == options[i]);
                let j = choose|j: int|
                    0 <= j < before.len() && (#[trigger] before[j]).0 == earlier[i];
                assert(all[j].0 == options[i]);
            } else {
                assert(all[before.len() as int].0 == options[i]);
            }
        }
    }
}

/// The sum of the weights of the offers before a place.
pub open spec fn weights_before(offered: Seq<(&Enchantment, i32)>, place: int) -> int
    decreases place,
{
    if place <= 0 {
        0
    } else {
        weights_before(offered, place - 1) + if offered[place - 1].0.weight > 0 {
            offered[place - 1].0.weight as int
        } else {
            0
        }
    }
}

proof fn lemma_weights_after_first(offered: Seq<(&Enchantment, i32)>, place: int)
    requires
        0 <= place < offered.len(),
    ensures
        weights_before(offered, place + 1) == weights_before(offered.drop_first(), place) + if offered[0].0.weight
            > 0 {
            offered[0].0.weight as int
        } else {
            0
        },
        weights_before(offered, place) >= 0,
    decreases place,
{
    if place > 0 {
        lemma_weights_after_first(offered, place - 1);
        assert(offered.drop_first()[place - 1] == offered[place]);
    } else {
        assert(weights_before(offered, 1) == weights_before(offered, 0) + if offered[0].0.weight > 0 {
            offered[0].0.weight as int
        } else {
            0
        });
    }
}

/// A draw falls on an offer just where it is at least the sum of the weights before it
/// and below that sum with its own: each is drawn as often as its weight.
pub proof fn law_offer_is_drawn_by_its_weight(
    offered: Seq<(&Enchantment, i32)>,
    draw: int,
    place: int,
)
    requires
        0 <= draw,
        0 <= place < offered.len(),
    ensures
        weighted_place(offered, draw) == place <==> weights_before(offered, place) <= draw
            < weights_before(offered, place + 1),
    decreases offered.len(),
{
    let own = if offered[0].0.weight > 0 {
        offered[0].0.weight as int
    } else {
        0
    };
    lemma_weights_after_first(offered, place);
    assert(weights_before(offered, 0) == 0);
    lemma_weights_after_first(offered, 0);
    assert(weights_before(offered.drop_first(), 0) == 0);
    if place > 0 {
        lemma_weights_after_first(offered, place - 1);
        lemma_weights_after_first(offered.drop_first(), place - 1);
        if draw >= own {
            law_offer_is_drawn_by_its_weight(offered.drop_first(), draw - own, place - 1);
        }
        lemma_place_not_negative(offered.drop_first(), draw - own);
    } else {
        lemma_place_not_negative(offered.drop_first(), draw - own);
    }
}

proof fn lemma_place_not_negative(offered: Seq<(&Enchantment, i32)>, draw: int)
    ensures
        weighted_place(offered, draw) >= 0,
    decreases offered.len(),
{
    if offered.len() > 0 {
        lemma_place_not_negative(offered.drop_first(), draw);
        let own = if offered[0].0.weight > 0 {
            offered[0].0.weight as int
        } else {
            0
        };
        lemma_place_not_negative(offered.drop_first(), draw - own);
    }
}

/// What is kept of a list is from the list, and is what was to be kept.
proof fn lemma_filtered<T>(list: Seq<T>, keep: spec_fn(T) -> bool)
    ensures
        forall|i: int|
            0 <= i < list.filter(keep).len() ==> keep(#[trigger] list.filter(keep)[i])
                && list.contains(list.filter(keep)[i]),
    decreases list.len(),
{
    reveal(Seq::filter);
    if list.len() > 0 {
        let earlier = list.drop_last();
        lemma_filtered(earlier, keep);
        let kept = list.filter(keep);
        let before = earlier.filter(keep);
        assert forall|i: int| 0 <= i < kept.len() implies keep(#[trigger] kept[i]) && list.contains(
            kept[i],
        ) by {
            if i < before.len() {
                assert(kept[i] == before[i]);
                let k = choose|k: int| 0 <= k < earlier.len() && earlier[k] == before[i];
                assert(list[k] == kept[i]);
            } else {
                assert(list[list.len() - 1] == kept[i]);
            }
        }
    }
}

/// Enchantments that are drawn together are all among the offers, can all be on one item
/// with each other, and none of them is drawn twice.
pub proof fn law_drawn_enchantments_go_together<R: Random>(
    offered: Seq<(&Enchantment, i32)>,
    cost: int,
    random: R,
)
    ensures
        ({
            let drawn = drawn_offers(offered, cost, random).0;
            &&& forall|i: int| 0 <= i < drawn.len() ==> offered.contains(#[trigger] drawn[i])
            &&& forall|i: int, j: int|
                0 <= i < j < drawn.len() ==> {
                    let first = (#[trigger] drawn[i]).0;
                    let second = (#[trigger] drawn[j]).0;
                    &&& first.key@ != second.key@
                    &&& !holds_id(first.exclusive_with@, second.key@)
                    &&& !holds_id(second.exclusive_with@, first.key@)
                }
        }),
    decreases offered.len(),
{
    let total = total_weight(offered);
    if total > 0 {
        let taken = random.bounded(total);
        let place = weighted_place(offered, taken.0);
        if 0 <= place < offered.len() {
            let chosen = offered[place];
            let again = taken.1.bounded(50);
            let rest = joining(offered, chosen.0);
            assert(offered.contains(chosen));
            if again.0 <= cost && rest.len() < offered.len() {
                let more = drawn_offers(rest, cost / 2, again.1).0;
                let drawn = drawn_offers(offered, cost, random).0;
                law_drawn_enchantments_go_together(rest, cost / 2, again.1);
                assert(drawn == seq![chosen] + more);
                let keep = |offer: (&Enchantment, i32)| compatible(offer.0, chosen.0);
                assert forall|i: int| 0 <= i < more.len() implies offered.contains(
                    #[trigger] more[i],
                ) && compatible(more[i].0, chosen.0) by {
                    assert(rest.contains(more[i]));
                    lemma_filtered(offered, keep);
                    let k = choose|k: int| 0 <= k < rest.len() && rest[k] == more[i];
                    assert(keep(rest[k]));
                    assert(offered.contains(rest[k]));
                }
                assert forall|i: int| 0 <= i < drawn.len() implies offered.contains(
                    #[trigger] drawn[i],
                ) by {
                    if i > 0 {
                        assert(drawn[i] == more[i - 1]);
                    }
                }
                assert forall|i: int, j: int| 0 <= i < j < drawn.len() implies {
                    let first = (#[trigger] drawn[i]).0;
                    let second = (#[trigger] drawn[j]).0;
                    &&& first.key@ != second.key@
                    &&& !holds_id(first.exclusive_with@, second.key@)
                    &&& !holds_id(second.exclusive_with@, first.key@)
                } by {
                    assert(drawn[j] == more[j - 1]);
                    if i > 0 {
                        assert(drawn[i] == more[i - 1]);
                    }
                }
            }
        }
    }
}

/// The cost of an enchanting is the level and the bonus draws and one more, spread by
/// 15 percent at most: in the middle of the spread it is just that.
pub proof fn law_cost_is_spread_around_its_base(level: int, first: int, second: int, a: int, b: int)
    requires
        0 <= a < 0x100_0000,
        0 <= b < 0x100_0000,
        1 <= level + 1 + first + second <= 0x4000_0000,
    ensures
        ({
            let base = level + 1 + first + second;
            let cost = spread_cost(level, first, second, a, b);
            &&& cost >= 1
            &&& a + b == 0x100_0000 ==> cost == base
            &&& 85 * base - 50 <= 100 * cost <= 115 * base + 50
            &&& a + b > 0x100_0000 ==> cost >= base
            &&& a + b < 0x100_0000 ==> cost <= base
        }),
{
    let base = level + 1 + first + second;
    let steps: int = 0x100_0000;
    let off = a + b - steps;
    let scaled = base * (100 * steps + 15 * off);
    assert(scaled == 100 * steps * base + 15 * (base * off)) by (nonlinear_arith)
        requires
            scaled == base * (100 * steps + 15 * off),
    ;
    assert(-steps * base <= base * off <= steps * base && (off >= 0 ==> base * off >= 0) && (off
        <= 0 ==> base * off <= 0) && (off == 0 ==> base * off == 0)) by (nonlinear_arith)
        requires
            -steps <= off <= steps,
            base >= 1,
            steps > 0,
    ;
    let part = base * off;
    let cost = (2 * scaled + 100 * steps) / (200 * steps);
    assert(scaled == 100 * steps * base + 15 * part);
    assert(cost == (200 * steps * base + 30 * part + 100 * steps) / (200 * steps));
    assert(cost >= 1);
    assert(cost <= i32::MAX);
    assert(spread_cost(level, first, second, a, b) == cost);
}

/// Of the enchantments that an item takes, one is drawn as often as any other, and gets
/// a level between its least and its greatest one.
pub proof fn law_random_enchantment_suits_the_item<R: Random>(
    options: Seq<&Enchantment>,
    stack: Stack,
    registry: Registry,
    random: R,
)
    requires
        random.valid(),
        0 < suitable(options, stack.item).len() <= i32::MAX,
        forall|i: int|
            0 <= i < options.len() ==> (#[trigger] options[i]).min_level <= options[i].max_level
                < options[i].min_level + i32::MAX,
    ensures
        exists|chosen: &Enchantment, level: int|
            {
                &&& options.contains(chosen)
                &&& stack.item == vanilla_id("book"@) || holds_id(
                    chosen.supported_items@,
                    stack.item,
                )
                &&& chosen.min_level <= level <= chosen.max_level
                &&& enchanted_randomly(options, stack, registry, random).0 == #[trigger] enchanted(
                    made_book(stack, registry),
                    seq![(chosen.key, level as i32)],
                )
            },
{
    let choices = suitable(options, stack.item);
    let keep = |enchantment: &Enchantment| can_enchant(enchantment, stack.item);
    random.law_draws_stay_in_range(choices.len() as int);
    let place = random.bounded(choices.len() as int);
    let chosen = choices[place.0];
    lemma_filtered(options, keep);
    assert(keep(choices[place.0]));
    assert(options.contains(chosen));
    let k = choose|k: int| 0 <= k < options.len() && options[k] == chosen;
    assert(options[k].min_level <= options[k].max_level);
    let count = chosen.max_level - chosen.min_level + 1;
    place.1.law_draws_stay_in_range(count);
    let level = chosen.min_level + place.1.bounded(count).0;
    assert(enchanted_randomly(options, stack, registry, random).0 == enchanted(
        made_book(stack, registry),
        seq![(chosen.key, level as i32)],
    ));
}

/// A further enchantment is drawn only where a number below 50 is no more than the cost,
/// from what goes with the first one, and for half of the cost: with a cost of 49 or
/// more there always is a further draw, and with none hardly ever.
pub proof fn law_further_enchantments_grow_rare<R: Random>(
    offered: Seq<(&Enchantment, i32)>,
    cost: int,
    random: R,
)
    requires
        random.valid(),
        0 < total_weight(offered) <= i32::MAX,
        ({
            let place = weighted_place(offered, random.bounded(total_weight(offered)).0);
            0 <= place < offered.len()
        }),
    ensures
        ({
            let first = random.bounded(total_weight(offered));
            let chosen = offered[weighted_place(offered, first.0)];
            let again = first.1.bounded(50);
            let rest = joining(offered, chosen.0);
            let drawn = drawn_offers(offered, cost, random);
            &&& drawn.0.len() >= 1
            &&& drawn.0[0] == chosen
            &&& 0 <= again.0 < 50
            &&& again.0 > cost ==> drawn.0.len() == 1 && drawn.1 == again.1
            &&& again.0 <= cost && rest.len() < offered.len() ==> {
                let more = drawn_offers(rest, cost / 2, again.1);
                drawn.0.skip(1) == more.0 && drawn.1 == more.1
            }
        }),
{
    random.law_draws_stay_in_range(total_weight(offered));
    let first = random.bounded(total_weight(offered));
    first.1.law_draws_stay_in_range(50);
    let chosen = offered[weighted_place(offered, first.0)];
    let again = first.1.bounded(50);
    let rest = joining(offered, chosen.0);
    if again.0 <= cost && rest.len() < offered.len() {
        let more = drawn_offers(rest, cost / 2, again.1);
        assert((seq![chosen] + more.0).skip(1) =~= more.0);
    }
}

/// An enchanting pays for the level and one more, with two bonuses of up to a quarter of
/// the item's enchantability each, spread by 15 percent: it draws from what that buys.
/// An item that takes no enchantments gets none.
pub proof fn law_enchanting_pays_by_level_and_enchantability<R: Random>(
    options: Seq<&Enchantment>,
    stack: Stack,
    level: int,
    random: R,
)
    requires
        random.valid(),
        0 <= level <= 0x1000_0000,
    ensures
        ({
            let ability = number_of(
                stack.component(vanilla_id("enchantable"@)),
                ComponentKind::Enchantable,
            );
            let drawn = drawn_enchantments(options, stack, level, random);
            &&& (ability matches Some(able) ==> able <= 0) ==> drawn.0.len() == 0 && drawn.1
                == random
            &&& (ability matches Some(able) && 0 < able <= 0x1000_0000) ==> exists|
                cost: int,
                state: R,
            |
                {
                    &&& drawn == #[trigger] drawn_offers(
                        offers(options, stack.item, cost),
                        cost,
                        state,
                    )
                    &&& 85 * (level + 1) - 50 <= 100 * cost
                    &&& 100 * cost <= 115 * (level + 1 + 2 * (ability->Some_0 as int / 4)) + 50
                }
        }),
{
    let ability = number_of(
        stack.component(vanilla_id("enchantable"@)),
        ComponentKind::Enchantable,
    );
    if let Some(able) = ability {
        if 0 < able <= 0x1000_0000 {
            let bound = able as int / 4 + 1;
            random.law_draws_stay_in_range(bound);
            let first = random.bounded(bound);
            first.1.law_draws_stay_in_range(bound);
            let second = first.1.bounded(bound);
            second.1.law_draws_stay_in_range(1);
            let a = second.1.unit();
            a.1.law_draws_stay_in_range(1);
            let b = a.1.unit();
            law_cost_is_spread_around_its_base(level, first.0, second.0, a.0, b.0);
            let cost = spread_cost(level, first.0, second.0, a.0, b.0);
            assert(drawn_enchantments(options, stack, level, random) == drawn_offers(
                offers(options, stack.item, cost),
                cost,
                b.1,
            ));
        }
    }
}

} // verus!
