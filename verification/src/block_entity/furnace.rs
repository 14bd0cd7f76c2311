//! The inventory and cooking state of a furnace.
use vstd::prelude::*;

use crate::block_entity::base_container::{
    collects, empty_slots, fitted, kept_slots, lemma_saved_slots_are_read_back, loaded_items, loaded_lock, loaded_name,
    savable, saves_list, saves_slots, BaseContainer, Storage, MAX_SLOT_COUNT,
};
use crate::block_entity::components::BlockEntityComponentInput;
use crate::block_entity::fuel_values::{lemma_time_fits, FuelValues};
use crate::data_components::map::DataComponentMap;
use crate::data_components::patch::Change;
use crate::data_components::{ComponentKind, DataComponentType};
use crate::ident::{law_text_is_parsed_back, parse_id, vanilla_id, Id, Identifier};
use crate::item_stack::{empty_stack, stacks_of, Item, ItemStack, Stack};
use crate::keyed::{by_key, find, lemma_find};
use crate::nbt::{law_lookup_after_insert, lookup, Nbt, NbtCompound, NbtTag};
use crate::registry::{Registry, Smelting};

verus! {

/// Number of inventory slots in a furnace.
pub const FURNACE_SLOTS: usize = 3;

/// Furnace ingredient slot index.
pub const FURNACE_INPUT_SLOT: usize = 0;

/// Furnace fuel slot index.
pub const FURNACE_FUEL_SLOT: usize = 1;

/// Furnace result slot index.
pub const FURNACE_RESULT_SLOT: usize = 2;

/// How long cooking takes without a recipe.
pub const DEFAULT_COOKING_TIME: i32 = 200;

/// How much progress is lost in one tick without a flame.
pub const BURN_COOL_SPEED: i32 = 2;

/// A furnace as a mathematical value.
#[verifier::ext_equal]
pub ghost struct Furnace {
    pub storage: Storage,
    pub lit_time_remaining: i32,
    pub lit_total_time: i32,
    pub cooking_timer: i32,
    pub cooking_total_time: i32,
    pub recipes_used: Seq<(Id, i32)>,
}

/// What one tick did to a furnace.
#[derive(Clone, Copy, Debug, PartialEq, Eq, Structural)]
pub struct FurnaceTickResult {
    pub changed: bool,
    pub lit_changed: bool,
    pub is_lit: bool,
}

/// The recipe for what lies in a stack.
pub open spec fn recipe_for(stack: Stack, registry: Registry) -> Option<Smelting> {
    if stack.is_empty() {
        None
    } else {
        find(registry.smelting@, stack.item)
    }
}

/// What a recipe yields: nothing where its output is no registered item.
pub open spec fn yield_of(recipe: Smelting, registry: Registry) -> Stack {
    match find(registry.items@, recipe.output@) {
        Some(item) => Stack::of(item, recipe.count),
        None => empty_stack(),
    }
}

/// How long a stack's items take to cook.
pub open spec fn cook_time(stack: Stack, registry: Registry) -> i32 {
    match recipe_for(stack, registry) {
        Some(recipe) => recipe.cooking_time,
        None => DEFAULT_COOKING_TIME,
    }
}

/// One item of a registered kind; nothing where there is no such item.
pub open spec fn single(id: Id, registry: Registry) -> Stack {
    match find(registry.items@, id) {
        Some(item) => Stack::of(item, 1),
        None => empty_stack(),
    }
}

/// What is left of an item that was used up.
pub open spec fn remainder_of(item: Id, registry: Registry) -> Stack {
    match find(registry.crafting_remainders@, item) {
        Some(left) => single(left.remainder@, registry),
        None => empty_stack(),
    }
}

/// A count that goes up by one, past the largest number to the smallest.
pub open spec fn counted_up(count: i32) -> i32 {
    if count == i32::MAX {
        i32::MIN
    } else {
        (count + 1) as i32
    }
}

/// A list of used recipes with one more use of a recipe.
pub open spec fn recorded(recipes: Seq<(Id, i32)>, id: Id) -> Seq<(Id, i32)>
    decreases recipes.len(),
{
    if recipes.len() == 0 {
        seq![(id, 1i32)]
    } else if recipes[0].0 == id {
        recipes.update(0, (id, counted_up(recipes[0].1)))
    } else {
        seq![recipes[0]] + recorded(recipes.drop_first(), id)
    }
}

impl Furnace {
    pub open spec fn item(self, slot: usize) -> Stack {
        self.storage.items[slot as int]
    }

    pub open spec fn with_item(self, slot: usize, stack: Stack) -> Furnace {
        Furnace {
            storage: Storage { items: self.storage.items.update(slot as int, stack), ..self.storage },
            ..self
        }
    }

    pub open spec fn with_timer(self, timer: i32) -> Furnace {
        Furnace { cooking_timer: timer, ..self }
    }

    pub open spec fn is_lit(self) -> bool {
        self.lit_time_remaining > 0
    }

    /// Whether there is room for what a recipe yields.
    pub open spec fn has_room_for(self, result: Stack) -> bool {
        let output = self.item(FURNACE_RESULT_SLOT);
        let most = if result.max_stack_size() < MAX_SLOT_COUNT {
            result.max_stack_size()
        } else {
            MAX_SLOT_COUNT
        };
        !result.is_empty() && (output.is_empty() || output.same_kind(result) && output.count
            + result.count <= most)
    }

    /// One item of fuel used up.
    pub open spec fn with_fuel_used(self, registry: Registry) -> Furnace {
        let fuel = self.item(FURNACE_FUEL_SLOT);
        let left = fuel.with_count((fuel.count - 1) as i32);
        self.with_item(
            FURNACE_FUEL_SLOT,
            if left.is_empty() {
                remainder_of(fuel.item, registry)
            } else {
                left
            },
        )
    }

    /// The furnace after an attempt to light it.
    pub open spec fn ignited(self, fuels: FuelValues, registry: Registry) -> Furnace {
        let time = fuels.stack_time(self.item(FURNACE_FUEL_SLOT)) as i32;
        let lit = Furnace { lit_time_remaining: time, lit_total_time: time, ..self };
        if time > 0 {
            lit.with_fuel_used(registry)
        } else {
            lit
        }
    }

    /// One ingredient turned into the result. A wet sponge fills a bucket that lies
    /// in the fuel slot.
    pub open spec fn burnt(self, result: Stack, registry: Registry) -> Furnace {
        let output = self.item(FURNACE_RESULT_SLOT);
        let input = self.item(FURNACE_INPUT_SLOT);
        let filled = self.with_item(
            FURNACE_RESULT_SLOT,
            if output.is_empty() {
                result
            } else {
                output.with_count((output.count + result.count) as i32)
            },
        );
        let soaked = if input.item == vanilla_id("wet_sponge"@) && self.item(FURNACE_FUEL_SLOT).item
            == vanilla_id("bucket"@) {
            filled.with_item(FURNACE_FUEL_SLOT, single(vanilla_id("water_bucket"@), registry))
        } else {
            filled
        };
        soaked.with_item(FURNACE_INPUT_SLOT, input.with_count((input.count - 1) as i32))
    }

    /// Whether one more tick of cooking completes the ingredient.
    pub open spec fn completes(self) -> bool {
        counted_up(self.cooking_timer) == self.cooking_total_time
    }

    /// The furnace after one tick over a flame.
    pub open spec fn cooked(self, recipe: Smelting, registry: Registry) -> Furnace {
        if self.completes() {
            let done = self.burnt(yield_of(recipe, registry), registry);
            Furnace {
                cooking_timer: 0,
                cooking_total_time: recipe.cooking_time,
                recipes_used: recorded(self.recipes_used, recipe.recipe@),
                ..done
            }
        } else {
            self.with_timer(counted_up(self.cooking_timer))
        }
    }

    /// The furnace after a tick of the flame alone.
    pub open spec fn burning_down(self) -> Furnace {
        Furnace {
            lit_time_remaining: if self.is_lit() {
                (self.lit_time_remaining - 1) as i32
            } else {
                self.lit_time_remaining
            },
            ..self
        }
    }

    /// The furnace, and whether its contents changed, after a tick with an ingredient
    /// that has a recipe.
    pub open spec fn worked(self, recipe: Smelting, fuels: FuelValues, registry: Registry) -> (
        Furnace,
        bool,
    ) {
        if !self.has_room_for(yield_of(recipe, registry)) {
            (self.with_timer(0), false)
        } else {
            let flame = if self.is_lit() {
                self
            } else {
                self.ignited(fuels, registry)
            };
            if flame.is_lit() {
                (flame.cooked(recipe, registry), !self.is_lit() || flame.completes())
            } else {
                (flame.with_timer(0), false)
            }
        }
    }

    /// Cooking progress after a tick without a flame.
    pub open spec fn cooled_timer(self) -> i32 {
        let less = self.cooking_timer - BURN_COOL_SPEED;
        if self.cooking_timer <= 0 {
            self.cooking_timer
        } else if less < 0 {
            0
        } else if less > self.cooking_total_time {
            self.cooking_total_time
        } else {
            less as i32
        }
    }

    /// Cooking progress goes down on the next tick.
    pub open spec fn cools_down(self) -> bool {
        &&& self.cooking_timer > 0
        &&& !self.burning_down().is_lit()
        &&& self.item(FURNACE_FUEL_SLOT).is_empty() || self.item(FURNACE_INPUT_SLOT).is_empty()
    }

    /// The furnace can advance: progress that goes down stays below a total time.
    pub open spec fn can_advance(self) -> bool {
        self.cools_down() ==> self.cooking_total_time >= 0
    }

    /// The furnace, and whether its contents changed, after one tick.
    pub open spec fn ticked(self, fuels: FuelValues, registry: Registry) -> (Furnace, bool) {
        let now = self.burning_down();
        let has_fuel = !self.item(FURNACE_FUEL_SLOT).is_empty();
        let has_ingredient = !self.item(FURNACE_INPUT_SLOT).is_empty();
        if now.is_lit() || has_fuel && has_ingredient {
            if !has_ingredient {
                (now.with_timer(0), false)
            } else {
                match recipe_for(self.item(FURNACE_INPUT_SLOT), registry) {
                    Some(recipe) => now.worked(recipe, fuels, registry),
                    None => (now, false),
                }
            }
        } else {
            (now.with_timer(now.cooled_timer()), false)
        }
    }

    /// The furnace with a stack put into a slot. Another ingredient starts cooking
    /// anew.
    pub open spec fn with_placed(self, slot: usize, stack: Stack, registry: Registry) -> Furnace {
        if slot >= FURNACE_SLOTS {
            self
        } else {
            let same = !stack.is_empty() && self.item(slot).same_kind(stack);
            let placed = self.with_item(slot, fitted(stack));
            if slot == FURNACE_INPUT_SLOT && !same {
                Furnace {
                    cooking_total_time: cook_time(fitted(stack), registry),
                    cooking_timer: 0,
                    ..placed
                }
            } else {
                placed
            }
        }
    }
}

/// A time that a compound saves; none where it is missing.
pub open spec fn loaded_time(saved: Seq<(Seq<char>, Nbt)>, name: Seq<char>) -> i32 {
    match lookup(saved, name) {
        Some(Nbt::Short(time)) => time as i32,
        _ => 0,
    }
}

/// A time that a compound saves.
fn saved_time(saved: &NbtCompound, name: &str) -> (time: i32)
    ensures
        time == loaded_time(saved@, name@),
{
    match saved.get_short(name) {
        Some(time) => time as i32,
        None => 0,
    }
}

/// The number that a whole-number tag holds. Of a long one only the low half counts.
pub open spec fn number_in(tag: Nbt) -> Option<i32> {
    match tag {
        Nbt::Byte(value) => Some(value as i32),
        Nbt::Short(value) => Some(value as i32),
        Nbt::Int(value) => Some(value),
        Nbt::Long(value) => Some(
            #[verifier::truncate]
            (value as i32),
        ),
        _ => None,
    }
}

/// The number that a whole-number tag holds.
fn whole_number(tag: &NbtTag) -> (number: Option<i32>)
    ensures
        number == number_in(tag@),
{
    match tag {
        NbtTag::Byte(value) => Some(*value as i32),
        NbtTag::Short(value) => Some(*value as i32),
        NbtTag::Int(value) => Some(*value),
        NbtTag::Long(value) => Some(
            #[verifier::truncate]
            (*value as i32),
        ),
        _ => None,
    }
}

/// Whether a recipe is among those used.
pub open spec fn is_used(uses: Seq<(Id, i32)>, id: Id) -> bool {
    exists|i: int| 0 <= i < uses.len() && (#[trigger] uses[i]).0 == id
}

/// The uses that entries save, after others: none where any of them is unreadable or
/// saved twice.
pub open spec fn collected_uses(entries: Seq<(Seq<char>, Nbt)>, before: Seq<(Id, i32)>) -> Seq<
    (Id, i32),
>
    decreases entries.len(),
{
    if entries.len() == 0 {
        before
    } else {
        match (parse_id(entries[0].0), number_in(entries[0].1)) {
            (Some(id), Some(count)) => if is_used(before, id) {
                Seq::empty()
            } else {
                collected_uses(entries.drop_first(), before.push((id, count)))
            },
            _ => Seq::empty(),
        }
    }
}

/// The uses of recipes that a compound saves.
pub open spec fn loaded_uses(saved: Seq<(Seq<char>, Nbt)>) -> Seq<(Id, i32)> {
    match lookup(saved, "RecipesUsed"@) {
        Some(Nbt::Compound(entries)) => collected_uses(entries, Seq::empty()),
        _ => Seq::empty(),
    }
}

/// The entries that uses of recipes are saved as.
pub open spec fn saved_uses(uses: Seq<(Id, i32)>) -> Seq<(Seq<char>, Nbt)> {
    Seq::new(uses.len(), |i: int| (uses[i].0.text(), Nbt::Int(uses[i].1)))
}

/// The tag that a time is saved as: the low half of it.
pub open spec fn time_tag(time: i32) -> Nbt {
    Nbt::Short(
        #[verifier::truncate]
        (time as i16),
    )
}

impl Furnace {
    /// The furnace that a compound saves.
    pub open spec fn loaded(self, saved: Seq<(Seq<char>, Nbt)>, registry: Registry) -> Furnace {
        Furnace {
            storage: Storage {
                items: loaded_items(saved, self.storage.items.len(), registry),
                custom_name: loaded_name(saved),
                lock: loaded_lock(saved),
            },
            cooking_timer: loaded_time(saved, "cooking_time_spent"@),
            cooking_total_time: loaded_time(saved, "cooking_total_time"@),
            lit_time_remaining: loaded_time(saved, "lit_time_remaining"@),
            lit_total_time: loaded_time(saved, "lit_total_time"@),
            recipes_used: loaded_uses(saved),
        }
    }

    /// A compound with the name, the lock and the times added.
    pub open spec fn with_times(self, saved: Seq<(Seq<char>, Nbt)>) -> Seq<(Seq<char>, Nbt)> {
        self.storage.with_metadata(saved).push(
            ("cooking_time_spent"@, time_tag(self.cooking_timer)),
        ).push(("cooking_total_time"@, time_tag(self.cooking_total_time))).push(
            ("lit_time_remaining"@, time_tag(self.lit_time_remaining)),
        ).push(("lit_total_time"@, time_tag(self.lit_total_time)))
    }
}

/// Whether a compound is another one with a furnace saved into it.
pub open spec fn saves_furnace(
    after: Seq<(Seq<char>, Nbt)>,
    before: Seq<(Seq<char>, Nbt)>,
    furnace: Furnace,
    types: Seq<DataComponentType>,
) -> bool {
    exists|listed: Seq<(Seq<char>, Nbt)>|
        #[trigger] saves_list(listed, furnace.with_times(before), furnace.storage.items, types)
            && after == listed.push(
            ("RecipesUsed"@, Nbt::Compound(saved_uses(furnace.recipes_used))),
        )
}

/// The numbers that a menu shows.
pub open spec fn menu_numbers(furnace: Furnace) -> Seq<i16> {
    seq![
        furnace.lit_time_remaining as i16,
        furnace.lit_total_time as i16,
        furnace.cooking_timer as i16,
        furnace.cooking_total_time as i16,
    ]
}

/// A furnace with nothing in it.
pub open spec fn empty_furnace() -> Furnace {
    Furnace {
        storage: Storage {
            items: empty_slots(FURNACE_SLOTS as nat),
            custom_name: None,
            lock: None,
        },
        lit_time_remaining: 0,
        lit_total_time: 0,
        cooking_timer: 0,
        cooking_total_time: 0,
        recipes_used: Seq::empty(),
    }
}

/// The stack with one item of a registered kind.
fn one_of(key: &Identifier, registry: &Registry) -> (stack: ItemStack)
    ensures
        stack@ == single(key@, *registry),
{
    match by_key(&registry.items, key) {
        Some(item) => ItemStack::new(item),
        None => ItemStack::empty(),
    }
}

/// Finds the recipe for what lies in a stack.
pub fn find_smelting_recipe<'a>(stack: &ItemStack, registry: &'a Registry) -> (recipe: Option<
    &'a Smelting,
>)
    ensures
        match recipe {
            Some(recipe) => recipe_for(stack@, *registry) == Some(*recipe),
            None => recipe_for(stack@, *registry) is None,
        },
{
    if stack.is_empty() {
        None
    } else {
        by_key(&registry.smelting, &stack.item.key)
    }
}

/// Independently lockable furnace inventory and cooking data.
#[derive(Debug)]
pub struct FurnaceContainer {
    base: BaseContainer,
    lit_time_remaining: i32,
    lit_total_time: i32,
    cooking_timer: i32,
    cooking_total_time: i32,
    recipes_used: Vec<(Identifier, i32)>,
}

/// The uses of recipes as mathematical values.
pub open spec fn uses_of(recipes: Seq<(Identifier, i32)>) -> Seq<(Id, i32)> {
    Seq::new(recipes.len(), |i: int| (recipes[i].0@, recipes[i].1))
}

impl View for FurnaceContainer {
    type V = Furnace;

    closed spec fn view(&self) -> Furnace {
        Furnace {
            storage: self.base@,
            lit_time_remaining: self.lit_time_remaining,
            lit_total_time: self.lit_total_time,
            cooking_timer: self.cooking_timer,
            cooking_total_time: self.cooking_total_time,
            recipes_used: uses_of(self.recipes_used@),
        }
    }
}

impl FurnaceContainer {
    /// A furnace has three slots.
    pub open spec fn wf(self) -> bool {
        self@.storage.items.len() == FURNACE_SLOTS
    }

    pub fn new() -> (furnace: Self)
        ensures
            furnace.wf(),
            furnace@ == empty_furnace(),
    {
        let recipes_used: Vec<(Identifier, i32)> = Vec::new();
        assert(uses_of(recipes_used@) =~= Seq::<(Id, i32)>::empty());
        FurnaceContainer {
            base: BaseContainer::new(FURNACE_SLOTS),
            lit_time_remaining: 0,
            lit_total_time: 0,
            cooking_timer: 0,
            cooking_total_time: 0,
            recipes_used,
        }
    }

    /// Whether there is room for what a recipe yields.
    fn can_burn(&self, result: &ItemStack) -> (room: bool)
        requires
            self.wf(),
        ensures
            room == self@.has_room_for(result@),
    {
        if result.is_empty() {
            return false;
        }
        let output = self.base.item(FURNACE_RESULT_SLOT);
        if output.is_empty() {
            return true;
        }
        if !output.is_same_item_same_components(result) {
            return false;
        }
        let total: i64 = output.count as i64 + result.count as i64;
        let size: i32 = result.max_stack_size();
        let most: i32 = if size < MAX_SLOT_COUNT {
            size
        } else {
            MAX_SLOT_COUNT
        };
        total <= most as i64
    }

    /// Uses up one item of fuel.
    fn consume_fuel(&mut self, registry: &Registry)
        requires
            old(self).wf(),
            !old(self)@.item(FURNACE_FUEL_SLOT).is_empty(),
        ensures
            final(self).wf(),
            final(self)@ == old(self)@.with_fuel_used(*registry),
    {
        let fuel = self.base.item(FURNACE_FUEL_SLOT);
        let left = fuel.copy_with_count(fuel.count - 1);
        let kept = if left.is_empty() {
            match by_key(&registry.crafting_remainders, &left.item.key) {
                Some(remainder) => one_of(&remainder.remainder, registry),
                None => ItemStack::empty(),
            }
        } else {
            left
        };
        self.base.put_item(FURNACE_FUEL_SLOT, kept);
        assert(self@ =~= old(self)@.with_fuel_used(*registry));
    }

    /// Turns one ingredient into the result.
    fn burn(&mut self, result: ItemStack, registry: &Registry)
        requires
            old(self).wf(),
            old(self)@.has_room_for(result@),
            !old(self)@.item(FURNACE_INPUT_SLOT).is_empty(),
        ensures
            final(self).wf(),
            final(self)@ == old(self)@.burnt(result@, *registry),
    {
        let ghost yielded = result@;
        let output = self.base.item(FURNACE_RESULT_SLOT);
        let filled = if output.is_empty() {
            result
        } else {
            output.copy_with_count(output.count + result.count)
        };
        self.base.put_item(FURNACE_RESULT_SLOT, filled);
        if self.base.item(FURNACE_INPUT_SLOT).is("wet_sponge") && self.base.item(
            FURNACE_FUEL_SLOT,
        ).is("bucket") {
            let bucket = one_of(&Identifier::vanilla("water_bucket"), registry);
            self.base.put_item(FURNACE_FUEL_SLOT, bucket);
        }
        let input = self.base.item(FURNACE_INPUT_SLOT);
        let rest = input.copy_with_count(input.count - 1);
        self.base.put_item(FURNACE_INPUT_SLOT, rest);
        assert(self@ =~= old(self)@.burnt(yielded, *registry));
    }

    /// Notes one more use of a recipe.
    fn record_recipe(&mut self, id: &Identifier)
        requires
            old(self).wf(),
        ensures
            final(self).wf(),
            final(self)@ == (Furnace {
                recipes_used: recorded(old(self)@.recipes_used, id@),
                ..old(self)@
            }),
    {
        let ghost uses = uses_of(self.recipes_used@);
        let mut i: usize = 0;
        assert(uses.skip(0) =~= uses);
        assert(uses.take(0) + recorded(uses, id@) =~= recorded(uses, id@));
        while i < self.recipes_used.len()
            invariant
                i <= self.recipes_used.len(),
                *self == *old(self),
                old(self).wf(),
                uses == uses_of(self.recipes_used@),
                recorded(uses, id@) == uses.take(i as int) + recorded(uses.skip(i as int), id@),
            decreases self.recipes_used.len() - i,
        {
            let ghost rest = uses.skip(i as int);
            assert(rest[0] == uses[i as int]);
            if self.recipes_used[i].0.same(id) {
                let count: i32 = self.recipes_used[i].1.wrapping_add(1);
                assert(count == counted_up(uses[i as int].1));
                self.recipes_used[i].1 = count;
                assert(uses_of(self.recipes_used@) =~= uses.take(i as int) + recorded(rest, id@));
                return;
            }
            assert(rest.drop_first() =~= uses.skip(i + 1));
            assert(uses.take(i + 1) =~= uses.take(i as int) + seq![uses[i as int]]);
            assert(uses.take(i as int) + (seq![rest[0]] + recorded(rest.drop_first(), id@))
                =~= uses.take(i + 1) + recorded(uses.skip(i + 1), id@));
            i = i + 1;
        }
        self.recipes_used.push((id.clone(), 1));
        assert(uses_of(self.recipes_used@) =~= uses.take(i as int) + seq![(id@, 1i32)]);
    }

    /// Cooks for one tick over a flame. Returns whether an ingredient was completed.
    fn cook(&mut self, recipe: &Smelting, result: ItemStack, registry: &Registry) -> (completed: bool)
        requires
            old(self).wf(),
            result@ == yield_of(*recipe, *registry),
            old(self)@.has_room_for(result@),
            !old(self)@.item(FURNACE_INPUT_SLOT).is_empty(),
        ensures
            final(self).wf(),
            final(self)@ == old(self)@.cooked(*recipe, *registry),
            completed == old(self)@.completes(),
    {
        let timer: i32 = self.cooking_timer.wrapping_add(1);
        if timer == self.cooking_total_time {
            self.burn(result, registry);
            self.record_recipe(&recipe.recipe);
            self.cooking_timer = 0;
            self.cooking_total_time = recipe.cooking_time;
            true
        } else {
            self.cooking_timer = timer;
            false
        }
    }

    /// Whether the furnace can advance: it cannot where its progress goes down and its
    /// total time is negative.
    pub fn can_tick(&self) -> (can: bool)
        requires
            self.wf(),
        ensures
            can == self@.can_advance(),
    {
        let lit = self.lit_time_remaining > 1;
        let works = !self.base.item(FURNACE_FUEL_SLOT).is_empty() && !self.base.item(
            FURNACE_INPUT_SLOT,
        ).is_empty();
        self.cooking_timer <= 0 || lit || works || self.cooking_total_time >= 0
    }

    /// Advances the furnace by one tick.
    pub fn server_tick(&mut self, fuels: &FuelValues, registry: &Registry) -> (result:
        FurnaceTickResult)
        requires
            old(self).wf(),
            old(self)@.can_advance(),
        ensures
            final(self).wf(),
            ({
                let (after, changed) = old(self)@.ticked(*fuels, *registry);
                let lit_changed = old(self)@.is_lit() != after.is_lit();
                &&& final(self)@ == after
                &&& result == (FurnaceTickResult {
                    changed: changed || lit_changed,
                    lit_changed,
                    is_lit: after.is_lit(),
                })
            }),
    {
        let was_lit = self.lit_time_remaining > 0;
        if was_lit {
            self.lit_time_remaining = self.lit_time_remaining - 1;
        }
        let mut is_lit = self.lit_time_remaining > 0;
        let mut changed = false;
        let has_fuel = !self.base.item(FURNACE_FUEL_SLOT).is_empty();
        let has_ingredient = !self.base.item(FURNACE_INPUT_SLOT).is_empty();
        assert(self@ =~= old(self)@.burning_down());
        if is_lit || has_fuel && has_ingredient {
            if has_ingredient {
                let recipe = find_smelting_recipe(self.base.item(FURNACE_INPUT_SLOT), registry);
                if let Some(recipe) = recipe {
                    let result = match by_key(&registry.items, &recipe.output) {
                        Some(item) => ItemStack::with_count(item, recipe.count),
                        None => ItemStack::empty(),
                    };
                    if self.can_burn(&result) {
                        if !is_lit {
                            let time: i32 = fuels.burn_duration(self.base.item(FURNACE_FUEL_SLOT));
                            self.lit_time_remaining = time;
                            self.lit_total_time = time;
                            if time > 0 {
                                self.consume_fuel(registry);
                                is_lit = true;
                                changed = true;
                            }
                        }
                        if is_lit {
                            if self.cook(recipe, result, registry) {
                                changed = true;
                            }
                        } else {
                            self.cooking_timer = 0;
                        }
                    } else {
                        self.cooking_timer = 0;
                    }
                }
            } else {
                self.cooking_timer = 0;
            }
        } else if self.cooking_timer > 0 {
            let less: i32 = self.cooking_timer - BURN_COOL_SPEED;
            self.cooking_timer = if less < 0 {
                0
            } else if less > self.cooking_total_time {
                self.cooking_total_time
            } else {
                less
            };
        }
        let lit_changed = was_lit != is_lit;
        if lit_changed {
            changed = true;
        }
        FurnaceTickResult { changed, lit_changed, is_lit }
    }

    /// Reads a saved furnace.
    pub fn load(&mut self, saved: &NbtCompound, registry: &Registry)
        requires
            old(self).wf(),
        ensures
            final(self).wf(),
            final(self)@ == old(self)@.loaded(saved@, *registry),
    {
        self.base.load_metadata(saved);
        self.base.load_items(saved, registry);
        self.cooking_timer = saved_time(saved, "cooking_time_spent");
        self.cooking_total_time = saved_time(saved, "cooking_total_time");
        self.lit_time_remaining = saved_time(saved, "lit_time_remaining");
        self.lit_total_time = saved_time(saved, "lit_total_time");
        self.recipes_used = FurnaceContainer::load_recipes_used(saved);
        proof {
            crate::block_entity::base_container::lemma_loaded_size(
                saved@,
                old(self)@.storage.items.len(),
                *registry,
            );
        }
        assert(self@ =~= old(self)@.loaded(saved@, *registry));
    }

    /// The uses of recipes that a compound saves: none where any of them is
    /// unreadable or saved twice.
    fn load_recipes_used(saved: &NbtCompound) -> (recipes: Vec<(Identifier, i32)>)
        ensures
            uses_of(recipes@) == loaded_uses(saved@),
    {
        let none: Vec<(Identifier, i32)> = Vec::new();
        assert(uses_of(none@) =~= Seq::<(Id, i32)>::empty());
        let compound = match saved.get_compound("RecipesUsed") {
            Some(compound) => compound,
            None => {
                return none;
            },
        };
        let ghost entries = compound@;
        let mut recipes: Vec<(Identifier, i32)> = Vec::new();
        let mut i: usize = 0;
        assert(uses_of(recipes@) =~= Seq::<(Id, i32)>::empty());
        assert(entries.skip(0) =~= entries);
        while i < compound.entries.len()
            invariant
                i <= compound.entries.len(),
                entries == compound@,
                entries.len() == compound.entries@.len(),
                uses_of(none@) == Seq::<(Id, i32)>::empty(),
                lookup(saved@, "RecipesUsed"@) == Some(Nbt::Compound(entries)),
                collected_uses(entries, Seq::empty()) == collected_uses(
                    entries.skip(i as int),
                    uses_of(recipes@),
                ),
            decreases compound.entries.len() - i,
        {
            let ghost uses = uses_of(recipes@);
            let ghost rest = entries.skip(i as int);
            assert(rest[0] == entries[i as int]);
            assert(rest.drop_first() =~= entries.skip(i + 1));
            let entry = &compound.entries[i];
            assert(entries[i as int] == (entry.0@, entry.1@));
            let id = match Identifier::parse(entry.0.as_str()) {
                Some(id) => id,
                None => {
                    return none;
                },
            };
            let count: i32 = match whole_number(&entry.1) {
                Some(count) => count,
                None => {
                    return none;
                },
            };
            let mut j: usize = 0;
            while j < recipes.len()
                invariant
                    j <= recipes.len(),
                    uses == uses_of(recipes@),
                    forall|k: int| 0 <= k < j ==> (#[trigger] uses[k]).0 != id@,
                    uses_of(none@) == Seq::<(Id, i32)>::empty(),
                    rest.len() > 0,
                    parse_id(rest[0].0) == Some(id@),
                    lookup(saved@, "RecipesUsed"@) == Some(Nbt::Compound(entries)),
                    collected_uses(entries, Seq::empty()) == collected_uses(rest, uses),
                decreases recipes.len() - j,
            {
                if recipes[j].0.same(&id) {
                    assert(uses[j as int].0 == id@);
                    assert(is_used(uses, id@));
                    return none;
                }
                j = j + 1;
            }
            let ghost added = (id@, count);
            recipes.push((id, count));
            assert(uses_of(recipes@) =~= uses.push(added));
            i = i + 1;
        }
        recipes
    }

    /// Saves the furnace.
    pub fn save(&self, saved: &mut NbtCompound, types: &Vec<DataComponentType>)
        requires
            self.wf(),
        ensures
            saves_furnace(final(saved)@, old(saved)@, self@, types@),
    {
        self.base.save_metadata(saved);
        saved.insert("cooking_time_spent", NbtTag::Short(self.cooking_timer as i16));
        saved.insert("cooking_total_time", NbtTag::Short(self.cooking_total_time as i16));
        saved.insert("lit_time_remaining", NbtTag::Short(self.lit_time_remaining as i16));
        saved.insert("lit_total_time", NbtTag::Short(self.lit_total_time as i16));
        let ghost timed = saved@;
        assert(timed =~= self@.with_times(old(saved)@));
        self.base.save_items(saved, types);
        let ghost listed = saved@;
        let mut recipes = NbtCompound::new();
        let ghost uses = uses_of(self.recipes_used@);
        let mut i: usize = 0;
        assert(recipes@ =~= saved_uses(uses.take(0)));
        while i < self.recipes_used.len()
            invariant
                i <= self.recipes_used.len(),
                uses == uses_of(self.recipes_used@),
                recipes@ == saved_uses(uses.take(i as int)),
            decreases self.recipes_used.len() - i,
        {
            let text = self.recipes_used[i].0.text();
            recipes.insert(text.as_str(), NbtTag::Int(self.recipes_used[i].1));
            assert(recipes@ =~= saved_uses(uses.take(i + 1)));
            i = i + 1;
        }
        assert(uses.take(i as int) =~= uses);
        let tag = NbtTag::Compound(recipes);
        let ghost recipes_tag = tag@;
        saved.insert("RecipesUsed", tag);
        assert(recipes_tag == Nbt::Compound(saved_uses(self@.recipes_used)));
        assert(saves_list(listed, self@.with_times(old(saved)@), self@.storage.items, types@));
    }

    /// Takes the name, the lock and the items over from an item's components.
    pub fn apply_implicit_components(
        &mut self,
        input: &mut BlockEntityComponentInput,
        registry: &Registry,
    )
        requires
            old(self).wf(),
        ensures
            final(self).wf(),
            final(self)@ == (Furnace {
                storage: old(self)@.storage.with_item(old(input).stack@, *registry),
                ..old(self)@
            }),
            final(input).stack == old(input).stack,
            forall|id: Id| #[trigger]
                final(input).consumes(id) <==> old(input).consumes(id) || id == vanilla_id(
                    "custom_name"@,
                ) || id == vanilla_id("lock"@) || id == vanilla_id("container"@),
    {
        self.base.apply_implicit_components(input, registry);
    }

    /// Adds components for the name, the lock and the items.
    pub fn collect_implicit_components(
        &self,
        components: &mut DataComponentMap,
        types: &Vec<DataComponentType>,
    )
        ensures
            collects(final(components)@, old(components)@, self@.storage, types@),
    {
        self.base.collect_implicit_components(components, types);
    }

    /// The custom name, or else the default one.
    pub fn display_name(&self, default: NbtTag) -> (name: NbtTag)
        ensures
            name@ == match self@.storage.custom_name {
                Some(name) => name,
                None => default@,
            },
    {
        self.base.display_name(default)
    }

    /// Whether the furnace is locked.
    pub fn has_lock(&self) -> (locked: bool)
        ensures
            locked == self@.storage.has_lock(),
    {
        self.base.has_lock()
    }

    /// Whether a player may open the furnace: a spectator always, and anyone else
    /// with no lock or with an item that fits it.
    pub fn can_open(&self, is_spectator: bool, key_fits: bool) -> (open: bool)
        ensures
            open == (is_spectator || self@.storage.lock is None || key_fits),
    {
        self.base.can_open(is_spectator, key_fits)
    }

    /// The numbers that a menu shows: the flame's remaining and total time, then the
    /// progress and total time of cooking.
    pub fn menu_data(&self) -> (data: [i16; 4])
        ensures
            data@ == menu_numbers(self@),
    {
        let data = [
            self.lit_time_remaining as i16,
            self.lit_total_time as i16,
            self.cooking_timer as i16,
            self.cooking_total_time as i16,
        ];
        assert(data@ =~= menu_numbers(self@));
        data
    }

    /// Takes the uses of recipes away.
    pub fn take_recipes_used(&mut self) -> (recipes: Vec<(Identifier, i32)>)
        requires
            old(self).wf(),
        ensures
            final(self).wf(),
            uses_of(recipes@) == old(self)@.recipes_used,
            final(self)@ == (Furnace { recipes_used: Seq::empty(), ..old(self)@ }),
    {
        let mut recipes: Vec<(Identifier, i32)> = Vec::new();
        assert(uses_of(recipes@) =~= Seq::<(Id, i32)>::empty());
        std::mem::swap(&mut self.recipes_used, &mut recipes);
        recipes
    }

    /// Takes all the items out.
    pub fn take_items(&mut self) -> (items: Vec<ItemStack>)
        requires
            old(self).wf(),
        ensures
            final(self).wf(),
            stacks_of(items@) == old(self)@.storage.items,
            final(self)@ == (Furnace {
                storage: Storage {
                    items: empty_slots(FURNACE_SLOTS as nat),
                    ..old(self)@.storage
                },
                ..old(self)@
            }),
    {
        self.base.take_items()
    }

    pub fn items(&self) -> (items: &Vec<ItemStack>)
        ensures
            stacks_of(items@) == self@.storage.items,
            items@.len() == self@.storage.items.len(),
    {
        self.base.items()
    }

    /// Puts a stack into a slot, cut down to what the slot holds.
    pub fn set_item(&mut self, slot: usize, stack: ItemStack, registry: &Registry)
        requires
            old(self).wf(),
        ensures
            final(self).wf(),
            final(self)@ == old(self)@.with_placed(slot, stack@, *registry),
    {
        if slot >= FURNACE_SLOTS {
            return;
        }
        let ghost put = stack@;
        let same = !stack.is_empty() && self.base.item(slot).is_same_item_same_components(&stack);
        self.base.set_item(slot, stack);
        if slot == FURNACE_INPUT_SLOT && !same {
            self.cooking_total_time = match find_smelting_recipe(
                self.base.item(FURNACE_INPUT_SLOT),
                registry,
            ) {
                Some(recipe) => recipe.cooking_time,
                None => DEFAULT_COOKING_TIME,
            };
            self.cooking_timer = 0;
        }
        assert(self@ =~= old(self)@.with_placed(slot, put, *registry));
    }

    /// Whether a stack may be put into a slot: never into the result's, and into the
    /// fuel's only fuel, or a bucket where no bucket lies.
    pub fn can_place_item(&self, slot: usize, stack: &ItemStack, fuels: &FuelValues) -> (placeable:
        bool)
        requires
            self.wf(),
        ensures
            placeable == if slot == FURNACE_RESULT_SLOT {
                false
            } else if slot == FURNACE_FUEL_SLOT {
                fuels.stack_time(stack@) > 0 || stack@.item == vanilla_id("bucket"@) && self@.item(
                    FURNACE_FUEL_SLOT,
                ).item != vanilla_id("bucket"@)
            } else {
                true
            },
    {
        if slot == FURNACE_RESULT_SLOT {
            return false;
        }
        if slot != FURNACE_FUEL_SLOT {
            return true;
        }
        fuels.is_fuel(stack) || stack.is("bucket") && !self.base.item(FURNACE_FUEL_SLOT).is(
            "bucket",
        )
    }
}

/// Whether uses of recipes can be saved and read back: each recipe at most once, with
/// an identifier that can be read.
pub open spec fn savable_uses(uses: Seq<(Id, i32)>) -> bool {
    &&& forall|i: int|
        0 <= i < uses.len() ==> (#[trigger] uses[i]).0.valid() && uses[i].0.namespace.len() > 0
    &&& forall|i: int, j: int|
        0 <= i < j < uses.len() ==> (#[trigger] uses[i]).0 != (#[trigger] uses[j]).0
}

proof fn lemma_saved_uses_are_read_back(uses: Seq<(Id, i32)>, at: int)
    requires
        savable_uses(uses),
        0 <= at <= uses.len(),
    ensures
        collected_uses(saved_uses(uses).skip(at), uses.take(at)) == uses,
    decreases uses.len() - at,
{
    let rest = saved_uses(uses).skip(at);
    if at == uses.len() {
        assert(uses.take(at) =~= uses);
    } else {
        law_text_is_parsed_back(uses[at].0);
        assert(rest[0] == (uses[at].0.text(), Nbt::Int(uses[at].1)));
        assert(!is_used(uses.take(at), uses[at].0)) by {
            assert forall|i: int| 0 <= i < uses.take(at).len() implies (#[trigger] uses.take(
                at,
            )[i]).0 != uses[at].0 by {
                assert(uses.take(at)[i] == uses[i]);
            }
        }
        assert(rest.drop_first() =~= saved_uses(uses).skip(at + 1));
        assert(uses.take(at).push((uses[at].0, uses[at].1)) =~= uses.take(at + 1));
        lemma_saved_uses_are_read_back(uses, at + 1);
    }
}

impl Furnace {
    /// Whether the furnace can be saved and read back: its times fit what they are
    /// saved as.
    pub open spec fn savable(self, registry: Registry) -> bool {
        &&& self.storage.custom_name matches Some(name) ==> ComponentKind::Text.fits(name)
        &&& savable(self.storage.items, registry)
        &&& savable_uses(self.recipes_used)
        &&& i16::MIN <= self.lit_time_remaining <= i16::MAX
        &&& i16::MIN <= self.lit_total_time <= i16::MAX
        &&& i16::MIN <= self.cooking_timer <= i16::MAX
        &&& i16::MIN <= self.cooking_total_time <= i16::MAX
    }

    /// What is kept of a furnace that is saved.
    pub open spec fn kept(self, registry: Registry) -> Furnace {
        Furnace {
            storage: Storage {
                items: kept_slots(self.storage.items, self.storage.items.len(), registry),
                ..self.storage
            },
            ..self
        }
    }
}

/// A furnace that is saved is read back: its name, its lock, its items, its times and
/// the recipes it used.
pub proof fn law_saved_furnace_is_read_back(
    furnace: Furnace,
    into: Furnace,
    saved: Seq<(Seq<char>, Nbt)>,
    registry: Registry,
)
    requires
        furnace.storage.items.len() == into.storage.items.len(),
        furnace.savable(registry),
        saves_furnace(saved, Seq::empty(), furnace, registry.component_types@),
    ensures
        into.loaded(saved, registry) == furnace.kept(registry),
{
    broadcast use law_lookup_after_insert;

    reveal_strlit("CustomName");
    reveal_strlit("lock");
    reveal_strlit("Items");
    reveal_strlit("RecipesUsed");
    reveal_strlit("cooking_time_spent");
    reveal_strlit("cooking_total_time");
    reveal_strlit("lit_time_remaining");
    reveal_strlit("lit_total_time");
    assert("CustomName"@.len() == 10);
    assert("lock"@.len() == 4);
    assert("Items"@.len() == 5);
    assert("RecipesUsed"@.len() == 11);
    assert("lit_total_time"@.len() == 14);
    assert("cooking_time_spent"@[9] == 'i');
    assert("cooking_total_time"@[9] == 'o');
    assert("lit_time_remaining"@[0] == 'l');
    let types = registry.component_types@;
    let times = furnace.with_times(Seq::empty());
    let listed = choose|listed: Seq<(Seq<char>, Nbt)>|
        #[trigger] saves_list(listed, times, furnace.storage.items, types) && saved == listed.push(
            ("RecipesUsed"@, Nbt::Compound(saved_uses(furnace.recipes_used))),
        );
    let tags = choose|tags: Seq<Nbt>|
        #[trigger] saves_slots(tags, furnace.storage.items, types) && listed == times.push(
            ("Items"@, Nbt::List(tags)),
        );
    lemma_saved_slots_are_read_back(
        tags,
        furnace.storage.items,
        furnace.storage.items.len(),
        registry,
    );
    lemma_saved_uses_are_read_back(furnace.recipes_used, 0);
    assert(saved_uses(furnace.recipes_used).skip(0) =~= saved_uses(furnace.recipes_used));
    assert(furnace.recipes_used.take(0) =~= Seq::<(Id, i32)>::empty());
    let metadata = furnace.storage.with_metadata(Seq::empty());
    let spent = metadata.push(("cooking_time_spent"@, time_tag(furnace.cooking_timer)));
    let total = spent.push(("cooking_total_time"@, time_tag(furnace.cooking_total_time)));
    let lit = total.push(("lit_time_remaining"@, time_tag(furnace.lit_time_remaining)));
    assert(times == lit.push(("lit_total_time"@, time_tag(furnace.lit_total_time))));
    assert(lookup(metadata, "cooking_time_spent"@) is None);
    assert(lookup(metadata, "cooking_total_time"@) is None);
    assert(lookup(metadata, "lit_time_remaining"@) is None);
    assert(lookup(metadata, "lit_total_time"@) is None);
    assert(lookup(metadata, "Items"@) is None);
    assert(lookup(metadata, "RecipesUsed"@) is None);
    assert(lookup(total, "lit_time_remaining"@) is None);
    assert(lookup(lit, "lit_total_time"@) is None);
    assert(lookup(times, "Items"@) is None);
    assert(lookup(listed, "RecipesUsed"@) is None);
    assert(into.loaded(saved, registry) =~= furnace.kept(registry));
}

/// Progress cools down by two ticks at a time where there is no flame and none can
/// be lit for want of fuel or of an ingredient. Nothing else changes.
pub proof fn law_stalled_progress_cools_by_two(
    furnace: Furnace,
    fuels: FuelValues,
    registry: Registry,
)
    requires
        !furnace.is_lit(),
        furnace.item(FURNACE_FUEL_SLOT).is_empty() || furnace.item(FURNACE_INPUT_SLOT).is_empty(),
        0 < furnace.cooking_timer <= furnace.cooking_total_time,
    ensures
        furnace.ticked(fuels, registry) == (
            furnace.with_timer(
                if furnace.cooking_timer < 2 {
                    0
                } else {
                    (furnace.cooking_timer - 2) as i32
                },
            ),
            false,
        ),
{
}

/// Without room for the result, a cold furnace is not lit and uses no fuel.
pub proof fn law_full_output_prevents_ignition(
    furnace: Furnace,
    fuels: FuelValues,
    registry: Registry,
)
    requires
        !furnace.is_lit(),
        !furnace.item(FURNACE_FUEL_SLOT).is_empty(),
        recipe_for(furnace.item(FURNACE_INPUT_SLOT), registry) matches Some(recipe)
            && !furnace.has_room_for(yield_of(recipe, registry)),
    ensures
        furnace.ticked(fuels, registry) == (furnace.with_timer(0), false),
{
}

/// An ingredient without a recipe keeps the progress that was made, and uses no fuel.
pub proof fn law_unmatched_ingredient_keeps_progress(
    furnace: Furnace,
    fuels: FuelValues,
    registry: Registry,
)
    requires
        !furnace.item(FURNACE_INPUT_SLOT).is_empty(),
        !furnace.item(FURNACE_FUEL_SLOT).is_empty(),
        recipe_for(furnace.item(FURNACE_INPUT_SLOT), registry) is None,
    ensures
        furnace.ticked(fuels, registry) == (furnace.burning_down(), false),
{
}

/// A wet sponge over a bucket: the one ingredient that changes what lies in the fuel
/// slot.
pub open spec fn fills_a_bucket(furnace: Furnace) -> bool {
    furnace.storage.items[0].item == vanilla_id("wet_sponge"@) && furnace.storage.items[1].item
        == vanilla_id("bucket"@)
}

/// A tick that lights a furnace takes exactly one item of fuel: a stack of more than
/// one stays what it is with a count one lower, and the flame is given the time that
/// one item burns. Any other tick leaves the fuel as it is.
pub proof fn law_lighting_uses_one_fuel_item(
    furnace: Furnace,
    fuels: FuelValues,
    registry: Registry,
)
    requires
        furnace.storage.items.len() == 3,
        !fills_a_bucket(furnace),
    ensures
        ({
            let after = furnace.ticked(fuels, registry).0;
            let fuel = furnace.storage.items[1];
            let left = after.storage.items[1];
            let lights = furnace.lit_time_remaining <= 1 && after.lit_time_remaining > 0;
            &&& after.storage.items.len() == 3
            &&& lights ==> fuel.count > 0 && after.lit_time_remaining == after.lit_total_time
                == fuels.time_of(fuel.item)
            &&& lights && fuel.count > 1 ==> left == (Stack { count: left.count, ..fuel })
                && left.count == fuel.count - 1
            &&& !lights ==> left == fuel
            &&& left.count >= fuel.count - 1
        }),
{
    let fuel = furnace.storage.items[1];
    let now = furnace.burning_down();
    lemma_time_fits(fuels, fuel.item);
    let lit = now.ignited(fuels, registry);
    if fuel.count > 1 && fuel.item != vanilla_id("air"@) {
        assert(fuel.with_count((fuel.count - 1) as i32).count == fuel.count - 1);
    }
    assert(fuel.count > 0 && fuel.item != vanilla_id("air"@) ==> lit.storage.items[1].count
        >= fuel.count - 1);
}

/// The flame goes down by one tick at a time until it is out, and is not fed while it
/// still burns.
pub proof fn law_flame_burns_down_by_one(furnace: Furnace, fuels: FuelValues, registry: Registry)
    ensures
        ({
            let after = furnace.ticked(fuels, registry).0;
            &&& furnace.lit_time_remaining > 1 ==> after.lit_time_remaining
                == furnace.lit_time_remaining - 1 && after.lit_total_time == furnace.lit_total_time
            &&& furnace.lit_time_remaining == 1 && furnace.storage.items[1].count <= 0
                ==> after.lit_time_remaining == 0
        }),
{
}

/// How often a recipe was used.
pub open spec fn times_used(uses: Seq<(Id, i32)>, id: Id) -> int
    decreases uses.len(),
{
    if uses.len() == 0 {
        0
    } else if uses.last().0 == id {
        times_used(uses.drop_last(), id) + uses.last().1
    } else {
        times_used(uses.drop_last(), id)
    }
}

proof fn lemma_times_used_after_first(uses: Seq<(Id, i32)>, id: Id)
    requires
        uses.len() > 0,
    ensures
        times_used(uses, id) == times_used(uses.drop_first(), id) + if uses[0].0 == id {
            uses[0].1 as int
        } else {
            0
        },
    decreases uses.len(),
{
    if uses.len() == 1 {
        assert(uses.drop_last() =~= Seq::<(Id, i32)>::empty());
        assert(uses.drop_first() =~= Seq::<(Id, i32)>::empty());
        assert(times_used(uses.drop_first(), id) == 0);
        assert(times_used(uses.drop_last(), id) == 0);
    } else {
        lemma_times_used_after_first(uses.drop_last(), id);
        assert(uses.drop_first().drop_last() =~= uses.drop_last().drop_first());
        assert(uses.drop_first().last() == uses.last());
    }
}

/// A recorded use counts for its own recipe once, and for no other recipe.
pub proof fn law_recorded_use_counts_once(uses: Seq<(Id, i32)>, id: Id, other: Id)
    requires
        forall|i: int| 0 <= i < uses.len() ==> (#[trigger] uses[i]).1 < i32::MAX,
    ensures
        times_used(recorded(uses, id), id) == times_used(uses, id) + 1,
        other != id ==> times_used(recorded(uses, id), other) == times_used(uses, other),
    decreases uses.len(),
{
    let after = recorded(uses, id);
    if uses.len() == 0 {
        assert(after.drop_last() =~= uses);
    } else {
        assert forall|i: int| 0 <= i < uses.drop_first().len() implies (#[trigger] uses.drop_first(
        )[i]).1 < i32::MAX by {
            assert(uses.drop_first()[i] == uses[i + 1]);
        }
        lemma_times_used_after_first(uses, id);
        lemma_times_used_after_first(uses, other);
        lemma_times_used_after_first(after, id);
        lemma_times_used_after_first(after, other);
        if uses[0].0 == id {
            assert(after.drop_first() =~= uses.drop_first());
        } else {
            assert(after.drop_first() =~= recorded(uses.drop_first(), id));
            law_recorded_use_counts_once(uses.drop_first(), id, other);
        }
    }
}

/// Whether the result slot takes what a recipe yields of a registered item.
pub open spec fn takes_yield(furnace: Furnace, recipe: Smelting, item: Item) -> bool {
    let output = furnace.storage.items[2];
    &&& recipe.count > 0
    &&& item.key@ != vanilla_id("air"@)
    &&& output.count <= 0 || output.item == vanilla_id("air"@) || {
        &&& output.item == item.key@
        &&& output.patch == Map::<Id, Change>::empty()
        &&& output.count + recipe.count <= 99
        &&& output.count + recipe.count <= Stack::of(item, recipe.count).max_stack_size()
    }
}

/// Over a flame an ingredient with a recipe makes progress by one tick at a time. The
/// tick that reaches the total time takes one ingredient away, adds what the recipe
/// yields to the result slot and starts anew; an earlier one moves no item.
pub proof fn law_lit_furnace_smelts(
    furnace: Furnace,
    fuels: FuelValues,
    registry: Registry,
    recipe: Smelting,
    item: Item,
)
    requires
        furnace.storage.items.len() == 3,
        furnace.lit_time_remaining > 1,
        furnace.storage.items[0].count > 0,
        furnace.storage.items[0].item != vanilla_id("air"@),
        find(registry.smelting@, furnace.storage.items[0].item) == Some(recipe),
        find(registry.items@, recipe.output@) == Some(item),
        takes_yield(furnace, recipe, item),
        furnace.cooking_timer < i32::MAX,
    ensures
        ({
            let after = furnace.ticked(fuels, registry).0;
            let input = furnace.storage.items[0];
            let output = furnace.storage.items[2];
            let result = after.storage.items[2];
            if furnace.cooking_timer + 1 == furnace.cooking_total_time {
                &&& after.cooking_timer == 0
                &&& after.cooking_total_time == recipe.cooking_time
                &&& after.recipes_used == recorded(furnace.recipes_used, recipe.recipe@)
                &&& after.storage.items[0] == (Stack {
                    count: after.storage.items[0].count,
                    ..input
                })
                &&& after.storage.items[0].count == input.count - 1
                &&& result.item == recipe.output@
                &&& result.count == recipe.count + if output.count > 0 && output.item != vanilla_id(
                    "air"@,
                ) {
                    output.count as int
                } else {
                    0
                }
                &&& !fills_a_bucket(furnace) ==> after.storage.items[1] == furnace.storage.items[1]
                &&& fills_a_bucket(furnace) ==> after.storage.items[1].count <= 1
                    && after.storage.items[1].item != vanilla_id("bucket"@)
            } else {
                &&& after.cooking_timer == furnace.cooking_timer + 1
                &&& after.cooking_total_time == furnace.cooking_total_time
                &&& after.recipes_used == furnace.recipes_used
                &&& after.storage == furnace.storage
            }
        }),
{
    lemma_find(registry.items@, recipe.output@);
    lemma_find(registry.items@, vanilla_id("water_bucket"@));
    lemma_bucket_names();
    assert(item.key@ == recipe.output@);
}

/// A bucket and a water bucket are different items, and neither is air.
proof fn lemma_bucket_names()
    ensures
        vanilla_id("water_bucket"@) != vanilla_id("bucket"@),
        vanilla_id("air"@) != vanilla_id("bucket"@),
{
    reveal_strlit("water_bucket");
    reveal_strlit("bucket");
    reveal_strlit("air");
    assert(vanilla_id("water_bucket"@).path.len() == 12);
    assert(vanilla_id("bucket"@).path.len() == 6);
    assert(vanilla_id("air"@).path.len() == 3);
}

/// A tick makes nothing out of nothing: the result slot changes only together with the
/// ingredient, which goes down by one, and the result goes up by what the ingredient's
/// recipe yields.
pub proof fn law_result_costs_one_ingredient(
    furnace: Furnace,
    fuels: FuelValues,
    registry: Registry,
)
    requires
        furnace.storage.items.len() == 3,
    ensures
        ({
            let after = furnace.ticked(fuels, registry).0;
            let input = furnace.storage.items[0];
            let output = furnace.storage.items[2];
            let result = after.storage.items[2];
            let smelted = after.storage.items[0].count != input.count;
            &&& smelted ==> {
                &&& input.count > 0
                &&& after.storage.items[0].count == input.count - 1
                &&& after.storage.items[0].item == input.item
                &&& after.lit_time_remaining > 0
                &&& find(registry.smelting@, input.item) matches Some(recipe)
                    && result.item == recipe.output@ && result.count == recipe.count
                    + if output.count > 0 && output.item != vanilla_id("air"@) {
                    output.count as int
                } else {
                    0
                }
            }
            &&& !smelted ==> after.storage.items[0] == input && result == output
                && after.recipes_used == furnace.recipes_used
        }),
{
    match find(registry.smelting@, furnace.storage.items[0].item) {
        Some(recipe) => {
            lemma_find(registry.items@, recipe.output@);
        },
        None => {},
    }
}

/// Putting an ingredient in starts cooking anew, for the time of its recipe, unless it
/// is the kind that already lies there; nothing put into another slot does.
pub proof fn law_another_ingredient_starts_anew(
    furnace: Furnace,
    slot: usize,
    stack: Stack,
    registry: Registry,
)
    requires
        furnace.storage.items.len() == 3,
        slot < 3,
    ensures
        ({
            let after = furnace.with_placed(slot, stack, registry);
            let before = furnace.storage.items[slot as int];
            let anew = slot == 0 && (stack.count <= 0 || stack.item != before.item || stack.patch
                != before.patch);
            &&& anew ==> after.cooking_timer == 0
            &&& anew && find(registry.smelting@, stack.item) is None ==> after.cooking_total_time
                == 200
            &&& anew && stack.count > 0 && stack.item != vanilla_id("air"@) && find(
                registry.smelting@,
                stack.item,
            ) is Some ==> after.cooking_total_time == find(
                registry.smelting@,
                stack.item,
            )->Some_0.cooking_time
            &&& !anew && stack.item != vanilla_id("air"@) ==> after.cooking_timer
                == furnace.cooking_timer && after.cooking_total_time == furnace.cooking_total_time
            &&& after.storage.items[slot as int].item == stack.item
            &&& after.storage.items[slot as int].count <= stack.count
            &&& forall|other: int|
                0 <= other < 3 && other != slot ==> #[trigger] after.storage.items[other]
                    == furnace.storage.items[other]
            &&& after.lit_time_remaining == furnace.lit_time_remaining
        }),
{
}

/// The last item of fuel leaves what it is made into: one of its remainder where it has
/// one that is registered, and nothing otherwise.
pub proof fn law_last_fuel_item_leaves_its_remainder(
    furnace: Furnace,
    fuels: FuelValues,
    registry: Registry,
)
    requires
        furnace.storage.items.len() == 3,
        furnace.storage.items[1].count == 1,
        furnace.lit_time_remaining <= 1,
        furnace.ticked(fuels, registry).0.lit_time_remaining > 0,
        !fills_a_bucket(furnace),
        furnace.storage.items[0].item != vanilla_id("wet_sponge"@),
    ensures
        ({
            let left = furnace.ticked(fuels, registry).0.storage.items[1];
            match find(registry.crafting_remainders@, furnace.storage.items[1].item) {
                Some(made) => match find(registry.items@, made.remainder@) {
                    Some(_) => left.item == made.remainder@ && left.count == 1,
                    None => left.is_empty(),
                },
                None => left.is_empty(),
            }
        }),
{
    if let Some(made) = find(registry.crafting_remainders@, furnace.storage.items[1].item) {
        lemma_find(registry.items@, made.remainder@);
    }
}

/// Smelting a wet sponge over a bucket fills the bucket with water.
pub proof fn law_wet_sponge_fills_the_bucket(
    furnace: Furnace,
    recipe: Smelting,
    registry: Registry,
)
    requires
        furnace.storage.items.len() == 3,
        fills_a_bucket(furnace),
        find(registry.items@, vanilla_id("water_bucket"@)) is Some,
        furnace.cooking_timer < i32::MAX,
        furnace.cooking_timer + 1 == furnace.cooking_total_time,
    ensures
        ({
            let fuel = furnace.cooked(recipe, registry).storage.items[1];
            fuel.item == vanilla_id("water_bucket"@) && fuel.count == 1
        }),
{
    lemma_find(registry.items@, vanilla_id("water_bucket"@));
}

/// A tick that changes what lies in a furnace tells so; one that tells nothing moved no
/// item and used no recipe.
pub proof fn law_changed_items_are_told(furnace: Furnace, fuels: FuelValues, registry: Registry)
    requires
        furnace.storage.items.len() == 3,
    ensures
        ({
            let (after, told) = furnace.ticked(fuels, registry);
            &&& !told ==> after.storage == furnace.storage && after.recipes_used
                == furnace.recipes_used
            &&& told ==> after.lit_time_remaining > 0
            &&& after.storage.custom_name == furnace.storage.custom_name
            &&& after.storage.lock == furnace.storage.lock
        }),
{
}

/// The result slot is never filled beyond what it holds: a smelted result goes on top of
/// another only of its own kind, and up to 99 or the size of its stacks.
pub proof fn law_result_slot_is_not_overfilled(
    furnace: Furnace,
    fuels: FuelValues,
    registry: Registry,
)
    requires
        furnace.storage.items.len() == 3,
        !furnace.storage.items[2].is_empty(),
    ensures
        ({
            let after = furnace.ticked(fuels, registry).0;
            let output = furnace.storage.items[2];
            let result = after.storage.items[2];
            result != output ==> {
                &&& result == (Stack { count: result.count, ..output })
                &&& result.count <= 99
                &&& find(registry.smelting@, furnace.storage.items[0].item) matches Some(recipe)
                    && recipe.output@ == output.item && (find(registry.items@, recipe.output@)
                    matches Some(item) && result.count <= Stack::of(
                    item,
                    recipe.count,
                ).max_stack_size())
            }
        }),
{
    if let Some(recipe) = find(registry.smelting@, furnace.storage.items[0].item) {
        lemma_find(registry.items@, recipe.output@);
    }
}

/// Without a flame or the means to light one nothing moves; an ingredient that meets a
/// flame never goes back in its progress by cooling.
pub proof fn law_progress_grows_over_a_flame(
    furnace: Furnace,
    fuels: FuelValues,
    registry: Registry,
)
    requires
        furnace.storage.items.len() == 3,
        0 <= furnace.cooking_timer < furnace.cooking_total_time,
    ensures
        ({
            let after = furnace.ticked(fuels, registry).0;
            &&& after.cooking_timer <= furnace.cooking_timer + 1
            &&& after.cooking_timer > furnace.cooking_timer ==> after.lit_time_remaining > 0
                && furnace.storage.items[0].count > 0
            &&& after.cooking_timer >= 0
            &&& furnace.storage.items[0].count <= 0 && furnace.lit_time_remaining > 1
                ==> after.cooking_timer == 0
        }),
{
}

/// A furnace is saved by names: each of its times under its own, its items and the
/// recipes that it used under theirs.
pub proof fn law_furnace_is_saved_under_its_names(
    furnace: Furnace,
    saved: Seq<(Seq<char>, Nbt)>,
    types: Seq<DataComponentType>,
)
    requires
        i16::MIN <= furnace.lit_time_remaining <= i16::MAX,
        i16::MIN <= furnace.lit_total_time <= i16::MAX,
        i16::MIN <= furnace.cooking_timer <= i16::MAX,
        i16::MIN <= furnace.cooking_total_time <= i16::MAX,
        saves_furnace(saved, Seq::empty(), furnace, types),
    ensures
        lookup(saved, "cooking_time_spent"@) == Some(Nbt::Short(furnace.cooking_timer as i16)),
        lookup(saved, "cooking_total_time"@) == Some(
            Nbt::Short(furnace.cooking_total_time as i16),
        ),
        lookup(saved, "lit_time_remaining"@) == Some(
            Nbt::Short(furnace.lit_time_remaining as i16),
        ),
        lookup(saved, "lit_total_time"@) == Some(Nbt::Short(furnace.lit_total_time as i16)),
        lookup(saved, "Items"@) matches Some(Nbt::List(_)),
        lookup(saved, "RecipesUsed"@) matches Some(Nbt::Compound(used)) && used.len()
            == furnace.recipes_used.len() && forall|i: int|
            0 <= i < used.len() ==> #[trigger] used[i] == (
                furnace.recipes_used[i].0.text(),
                Nbt::Int(furnace.recipes_used[i].1),
            ),
{
    broadcast use law_lookup_after_insert;

    reveal_strlit("CustomName");
    reveal_strlit("lock");
    reveal_strlit("Items");
    reveal_strlit("RecipesUsed");
    reveal_strlit("cooking_time_spent");
    reveal_strlit("cooking_total_time");
    reveal_strlit("lit_time_remaining");
    reveal_strlit("lit_total_time");
    assert("CustomName"@.len() == 10);
    assert("lock"@.len() == 4);
    assert("Items"@.len() == 5);
    assert("RecipesUsed"@.len() == 11);
    assert("lit_total_time"@.len() == 14);
    assert("cooking_time_spent"@[9] == 'i');
    assert("cooking_total_time"@[9] == 'o');
    assert("lit_time_remaining"@[0] == 'l');
    let times = furnace.with_times(Seq::empty());
    let listed = choose|listed: Seq<(Seq<char>, Nbt)>|
        #[trigger] saves_list(listed, times, furnace.storage.items, types) && saved == listed.push(
            ("RecipesUsed"@, Nbt::Compound(saved_uses(furnace.recipes_used))),
        );
    let tags = choose|tags: Seq<Nbt>|
        #[trigger] saves_slots(tags, furnace.storage.items, types) && listed == times.push(
            ("Items"@, Nbt::List(tags)),
        );
    let metadata = furnace.storage.with_metadata(Seq::empty());
    let spent = metadata.push(("cooking_time_spent"@, time_tag(furnace.cooking_timer)));
    let total = spent.push(("cooking_total_time"@, time_tag(furnace.cooking_total_time)));
    let lit = total.push(("lit_time_remaining"@, time_tag(furnace.lit_time_remaining)));
    assert(times == lit.push(("lit_total_time"@, time_tag(furnace.lit_total_time))));
    assert(lookup(metadata, "cooking_time_spent"@) is None);
    assert(lookup(metadata, "cooking_total_time"@) is None);
    assert(lookup(metadata, "lit_time_remaining"@) is None);
    assert(lookup(metadata, "lit_total_time"@) is None);
    assert(lookup(metadata, "Items"@) is None);
    assert(lookup(metadata, "RecipesUsed"@) is None);
    assert(lookup(total, "lit_time_remaining"@) is None);
    assert(lookup(lit, "lit_total_time"@) is None);
    assert(lookup(times, "Items"@) is None);
    assert(lookup(listed, "RecipesUsed"@) is None);
}

} // verus!
