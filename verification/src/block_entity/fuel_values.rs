//! Furnace fuel durations: the hard-coded list of fuels and the table made from it.
use vstd::prelude::*;

use crate::ident::{vanilla_id, Id, Identifier};
use crate::item_stack::{Item, ItemStack, Stack};
use crate::keyed::{by_key, contains_id, find, holds_id, lemma_find, Keyed, Tag};
use crate::registry::Registry;

verus! {

/// How many ticks one item takes to cook: the unit of burn durations.
pub const STANDARD_BURN_TIME: i32 = 200;

/// A rule that gives a burn duration to an item, or to the items of a tag.
pub ghost struct FuelRule {
    pub target: Id,
    pub is_tag: bool,
    pub time: int,
}

/// A rule for one item.
pub open spec fn rule_for_item(path: Seq<char>, time: int) -> FuelRule {
    FuelRule { target: vanilla_id(path), is_tag: false, time }
}

/// A rule for the items of a tag.
pub open spec fn rule_for_tag(path: Seq<char>, time: int) -> FuelRule {
    FuelRule { target: vanilla_id(path), is_tag: true, time }
}

/// Whether a tag holds an item. A tag that does not exist holds none.
pub open spec fn is_tagged(tags: Seq<Tag>, tag: Id, item: Id) -> bool {
    match find(tags, tag) {
        Some(tag) => holds_id(tag.values@, item),
        None => false,
    }
}

impl FuelRule {
    /// Whether the rule speaks of an item.
    pub open spec fn covers(self, item: Id, tags: Seq<Tag>) -> bool {
        if self.is_tag {
            is_tagged(tags, self.target, item)
        } else {
            self.target == item
        }
    }
}

/// The burn duration of an item: that of the last rule that covers it, or none.
pub open spec fn duration(rules: Seq<FuelRule>, item: Id, tags: Seq<Tag>) -> int
    decreases rules.len(),
{
    if rules.len() == 0 {
        0
    } else if rules.last().covers(item, tags) {
        rules.last().time
    } else {
        duration(rules.drop_last(), item, tags)
    }
}

/// Division that rounds toward zero.
pub open spec fn toward_zero(value: int, divisor: int) -> int {
    if value >= 0 {
        value / divisor
    } else {
        -((-value) / divisor)
    }
}

/// Rules for the strongest fuels and for what is built from wood.
pub open spec fn building_rules(base: int) -> Seq<FuelRule> {
    Seq::<FuelRule>::empty()
        .push(rule_for_item("lava_bucket"@, base * 100))
        .push(rule_for_item("coal_block"@, base * 8 * 10))
        .push(rule_for_item("blaze_rod"@, base * 12))
        .push(rule_for_item("coal"@, base * 8))
        .push(rule_for_item("charcoal"@, base * 8))
        .push(rule_for_tag("logs"@, toward_zero(base * 3, 2)))
        .push(rule_for_tag("bamboo_blocks"@, toward_zero(base * 3, 2)))
        .push(rule_for_tag("planks"@, toward_zero(base * 3, 2)))
        .push(rule_for_item("bamboo_mosaic"@, toward_zero(base * 3, 2)))
        .push(rule_for_tag("wooden_stairs"@, toward_zero(base * 3, 2)))
        .push(rule_for_item("bamboo_mosaic_stairs"@, toward_zero(base * 3, 2)))
        .push(rule_for_tag("wooden_slabs"@, toward_zero(base * 3, 4)))
        .push(rule_for_item("bamboo_mosaic_slab"@, toward_zero(base * 3, 4)))
        .push(rule_for_tag("wooden_trapdoors"@, toward_zero(base * 3, 2)))
        .push(rule_for_tag("wooden_pressure_plates"@, toward_zero(base * 3, 2)))
        .push(rule_for_tag("wooden_shelves"@, toward_zero(base * 3, 2)))
}

/// Rules for gates, furniture and wooden utensils.
pub open spec fn furnishing_rules(base: int) -> Seq<FuelRule> {
    building_rules(base)
        .push(rule_for_tag("wooden_fences"@, toward_zero(base * 3, 2)))
        .push(rule_for_tag("fence_gates"@, toward_zero(base * 3, 2)))
        .push(rule_for_item("note_block"@, toward_zero(base * 3, 2)))
        .push(rule_for_item("bookshelf"@, toward_zero(base * 3, 2)))
        .push(rule_for_item("chiseled_bookshelf"@, toward_zero(base * 3, 2)))
        .push(rule_for_item("lectern"@, toward_zero(base * 3, 2)))
        .push(rule_for_item("jukebox"@, toward_zero(base * 3, 2)))
        .push(rule_for_item("chest"@, toward_zero(base * 3, 2)))
        .push(rule_for_item("trapped_chest"@, toward_zero(base * 3, 2)))
        .push(rule_for_item("crafting_table"@, toward_zero(base * 3, 2)))
        .push(rule_for_item("daylight_detector"@, toward_zero(base * 3, 2)))
        .push(rule_for_tag("banners"@, toward_zero(base * 3, 2)))
        .push(rule_for_item("bow"@, toward_zero(base * 3, 2)))
        .push(rule_for_item("fishing_rod"@, toward_zero(base * 3, 2)))
        .push(rule_for_item("ladder"@, toward_zero(base * 3, 2)))
        .push(rule_for_tag("signs"@, base))
}

/// Rules for tools, boats, wool and other small things.
pub open spec fn tool_rules(base: int) -> Seq<FuelRule> {
    furnishing_rules(base)
        .push(rule_for_tag("hanging_signs"@, base * 4))
        .push(rule_for_item("wooden_shovel"@, base))
        .push(rule_for_item("wooden_sword"@, base))
        .push(rule_for_item("wooden_spear"@, base))
        .push(rule_for_item("wooden_hoe"@, base))
        .push(rule_for_item("wooden_axe"@, base))
        .push(rule_for_item("wooden_pickaxe"@, base))
        .push(rule_for_tag("wooden_doors"@, base))
        .push(rule_for_tag("boats"@, base * 6))
        .push(rule_for_tag("wool"@, toward_zero(base, 2)))
        .push(rule_for_tag("wooden_buttons"@, toward_zero(base, 2)))
        .push(rule_for_item("stick"@, toward_zero(base, 2)))
        .push(rule_for_tag("saplings"@, toward_zero(base, 2)))
        .push(rule_for_item("bowl"@, toward_zero(base, 2)))
        .push(rule_for_tag("wool_carpets"@, 1 + toward_zero(base, 3)))
        .push(rule_for_item("dried_kelp_block"@, 1 + base * 20))
}

/// Rules for plants and work tables.
pub open spec fn plant_rules(base: int) -> Seq<FuelRule> {
    tool_rules(base)
        .push(rule_for_item("crossbow"@, toward_zero(base * 3, 2)))
        .push(rule_for_item("bamboo"@, toward_zero(base, 4)))
        .push(rule_for_item("dead_bush"@, toward_zero(base, 2)))
        .push(rule_for_item("short_dry_grass"@, toward_zero(base, 2)))
        .push(rule_for_item("tall_dry_grass"@, toward_zero(base, 2)))
        .push(rule_for_item("scaffolding"@, toward_zero(base, 4)))
        .push(rule_for_item("loom"@, toward_zero(base * 3, 2)))
        .push(rule_for_item("barrel"@, toward_zero(base * 3, 2)))
        .push(rule_for_item("cartography_table"@, toward_zero(base * 3, 2)))
        .push(rule_for_item("fletching_table"@, toward_zero(base * 3, 2)))
        .push(rule_for_item("smithing_table"@, toward_zero(base * 3, 2)))
        .push(rule_for_item("composter"@, toward_zero(base * 3, 2)))
        .push(rule_for_item("azalea"@, toward_zero(base, 2)))
        .push(rule_for_item("flowering_azalea"@, toward_zero(base, 2)))
        .push(rule_for_item("mangrove_roots"@, toward_zero(base * 3, 2)))
        .push(rule_for_item("leaf_litter"@, toward_zero(base, 2)))
}

/// All the rules, in order. Wood that does not burn is taken out at the end.
pub open spec fn vanilla_rules(base: int) -> Seq<FuelRule> {
    plant_rules(base)
        .push(rule_for_tag("non_flammable_wood"@, 0))
}

/// A table's duration for an item: that of its first entry for the item, or none.
pub open spec fn listed(values: Seq<FuelValue>, item: Id) -> int {
    match find(values, item) {
        Some(value) => value.time as int,
        None => 0,
    }
}

/// How long one item burns.
#[derive(Debug)]
pub struct FuelValue {
    pub item: Identifier,
    pub time: i32,
}

impl Keyed for FuelValue {
    open spec fn id(&self) -> Id {
        self.item@
    }

    fn key(&self) -> (key: &Identifier) {
        &self.item
    }
}

/// Burn durations of the registered items.
#[derive(Debug)]
pub struct FuelValues {
    values: Vec<FuelValue>,
}

impl FuelValues {
    /// How long one of an item burns.
    pub closed spec fn time_of(self, item: Id) -> int {
        listed(self.values@, item)
    }

    /// How long one of a stack's items burns: no time where the stack is empty.
    pub open spec fn stack_time(self, stack: Stack) -> int {
        if stack.is_empty() {
            0
        } else {
            self.time_of(stack.item)
        }
    }

    /// Returns whether `stack` is accepted as furnace fuel.
    pub fn is_fuel(&self, stack: &ItemStack) -> (fuel: bool)
        ensures
            fuel == (self.stack_time(stack@) > 0),
    {
        self.burn_duration(stack) > 0
    }

    /// Returns the number of ticks one item in `stack` burns for.
    pub fn burn_duration(&self, stack: &ItemStack) -> (time: i32)
        ensures
            time == self.stack_time(stack@),
    {
        if stack.is_empty() {
            return 0;
        }
        match by_key(&self.values, &stack.item.key) {
            Some(value) => value.time,
            None => 0,
        }
    }

    /// The durations that the hard-coded list of fuels gives to the registered items,
    /// for a time unit.
    pub fn vanilla(base: i32, registry: &Registry) -> (fuels: Self)
        requires
            -21_474_836 <= base <= 21_474_836,
        ensures
            forall|item: Id| #[trigger]
                fuels.time_of(item) == if find(registry.items@, item) is Some {
                    duration(vanilla_rules(base as int), item, registry.item_tags@)
                } else {
                    0
                },
    {
        let mut builder = FuelValuesBuilder::new(registry);
        add_building_fuels(&mut builder, base);
        add_furnishing_fuels(&mut builder, base);
        add_tool_fuels(&mut builder, base);
        add_plant_fuels(&mut builder, base);
        builder.remove_tag("non_flammable_wood");
        builder.build()
    }
}

/// Adds the building rules.
fn add_building_fuels(builder: &mut FuelValuesBuilder, base: i32)
    requires
        -21_474_836 <= base <= 21_474_836,
        old(builder).wf(),
        old(builder).rules() == Seq::<FuelRule>::empty(),
    ensures
        final(builder).wf(),
        final(builder).rules() == building_rules(base as int),
        final(builder).registry() == old(builder).registry(),
{
    builder.add_item("lava_bucket", base * 100);
    builder.add_block("coal_block", base * 8 * 10);
    builder.add_item("blaze_rod", base * 12);
    builder.add_item("coal", base * 8);
    builder.add_item("charcoal", base * 8);
    builder.add_tag("logs", base * 3 / 2);
    builder.add_tag("bamboo_blocks", base * 3 / 2);
    builder.add_tag("planks", base * 3 / 2);
    builder.add_block("bamboo_mosaic", base * 3 / 2);
    builder.add_tag("wooden_stairs", base * 3 / 2);
    builder.add_block("bamboo_mosaic_stairs", base * 3 / 2);
    builder.add_tag("wooden_slabs", base * 3 / 4);
    builder.add_block("bamboo_mosaic_slab", base * 3 / 4);
    builder.add_tag("wooden_trapdoors", base * 3 / 2);
    builder.add_tag("wooden_pressure_plates", base * 3 / 2);
    builder.add_tag("wooden_shelves", base * 3 / 2);
}

/// Adds the furnishing rules.
fn add_furnishing_fuels(builder: &mut FuelValuesBuilder, base: i32)
    requires
        -21_474_836 <= base <= 21_474_836,
        old(builder).wf(),
        old(builder).rules() == building_rules(base as int),
    ensures
        final(builder).wf(),
        final(builder).rules() == furnishing_rules(base as int),
        final(builder).registry() == old(builder).registry(),
{
    builder.add_tag("wooden_fences", base * 3 / 2);
    builder.add_tag("fence_gates", base * 3 / 2);
    builder.add_block("note_block", base * 3 / 2);
    builder.add_block("bookshelf", base * 3 / 2);
    builder.add_block("chiseled_bookshelf", base * 3 / 2);
    builder.add_block("lectern", base * 3 / 2);
    builder.add_block("jukebox", base * 3 / 2);
    builder.add_block("chest", base * 3 / 2);
    builder.add_block("trapped_chest", base * 3 / 2);
    builder.add_block("crafting_table", base * 3 / 2);
    builder.add_block("daylight_detector", base * 3 / 2);
    builder.add_tag("banners", base * 3 / 2);
    builder.add_item("bow", base * 3 / 2);
    builder.add_item("fishing_rod", base * 3 / 2);
    builder.add_block("ladder", base * 3 / 2);
    builder.add_tag("signs", base);
}

/// Adds the tool rules.
fn add_tool_fuels(builder: &mut FuelValuesBuilder, base: i32)
    requires
        -21_474_836 <= base <= 21_474_836,
        old(builder).wf(),
        old(builder).rules() == furnishing_rules(base as int),
    ensures
        final(builder).wf(),
        final(builder).rules() == tool_rules(base as int),
        final(builder).registry() == old(builder).registry(),
{
    builder.add_tag("hanging_signs", base * 4);
    builder.add_item("wooden_shovel", base);
    builder.add_item("wooden_sword", base);
    builder.add_item("wooden_spear", base);
    builder.add_item("wooden_hoe", base);
    builder.add_item("wooden_axe", base);
    builder.add_item("wooden_pickaxe", base);
    builder.add_tag("wooden_doors", base);
    builder.add_tag("boats", base * 6);
    builder.add_tag("wool", base / 2);
    builder.add_tag("wooden_buttons", base / 2);
    builder.add_item("stick", base / 2);
    builder.add_tag("saplings", base / 2);
    builder.add_item("bowl", base / 2);
    builder.add_tag("wool_carpets", 1 + base / 3);
    builder.add_block("dried_kelp_block", 1 + base * 20);
}

/// Adds the plant rules.
fn add_plant_fuels(builder: &mut FuelValuesBuilder, base: i32)
    requires
        -21_474_836 <= base <= 21_474_836,
        old(builder).wf(),
        old(builder).rules() == tool_rules(base as int),
    ensures
        final(builder).wf(),
        final(builder).rules() == plant_rules(base as int),
        final(builder).registry() == old(builder).registry(),
{
    builder.add_item("crossbow", base * 3 / 2);
    builder.add_block("bamboo", base / 4);
    builder.add_block("dead_bush", base / 2);
    builder.add_block("short_dry_grass", base / 2);
    builder.add_block("tall_dry_grass", base / 2);
    builder.add_block("scaffolding", base / 4);
    builder.add_block("loom", base * 3 / 2);
    builder.add_block("barrel", base * 3 / 2);
    builder.add_block("cartography_table", base * 3 / 2);
    builder.add_block("fletching_table", base * 3 / 2);
    builder.add_block("smithing_table", base * 3 / 2);
    builder.add_block("composter", base * 3 / 2);
    builder.add_block("azalea", base / 2);
    builder.add_block("flowering_azalea", base / 2);
    builder.add_block("mangrove_roots", base * 3 / 2);
    builder.add_block("leaf_litter", base / 2);
}

/// A table of burn durations that is being filled.
struct FuelValuesBuilder<'a> {
    registry: &'a Registry,
    values: Vec<FuelValue>,
    /// The rules applied so far.
    applied: Ghost<Seq<FuelRule>>,
}

impl<'a> FuelValuesBuilder<'a> {
    spec fn rules(self) -> Seq<FuelRule> {
        self.applied@
    }

    spec fn registry(self) -> Registry {
        *self.registry
    }

    /// Every registered item has the duration that the rules give it.
    spec fn wf(self) -> bool {
        &&& self.values@.len() == self.registry.items@.len()
        &&& forall|i: int|
            0 <= i < self.values@.len() ==> {
                &&& (#[trigger] self.values@[i]).item@ == self.registry.items@[i].key@
                &&& self.values@[i].time == duration(
                    self.applied@,
                    self.values@[i].item@,
                    self.registry.item_tags@,
                )
            }
    }

    fn new(registry: &'a Registry) -> (builder: Self)
        ensures
            builder.wf(),
            builder.rules() == Seq::<FuelRule>::empty(),
            builder.registry() == *registry,
    {
        let mut values: Vec<FuelValue> = Vec::new();
        let mut i: usize = 0;
        while i < registry.items.len()
            invariant
                i <= registry.items.len(),
                values@.len() == i,
                forall|j: int|
                    0 <= j < i ==> (#[trigger] values@[j]).item@ == registry.items@[j].key@
                        && values@[j].time == 0,
            decreases registry.items.len() - i,
        {
            values.push(FuelValue { item: registry.items[i].key.clone(), time: 0 });
            i = i + 1;
        }
        FuelValuesBuilder { registry, values, applied: Ghost(Seq::empty()) }
    }

    /// Gives an item a duration.
    fn add_item(&mut self, path: &str, time: i32)
        requires
            old(self).wf(),
        ensures
            final(self).wf(),
            final(self).rules() == old(self).rules().push(rule_for_item(path@, time as int)),
            final(self).registry() == old(self).registry(),
    {
        let ghost rule = rule_for_item(path@, time as int);
        let ghost given = *self;
        assert(given.applied@.push(rule).drop_last() =~= given.applied@);
        let mut i: usize = 0;
        while i < self.values.len()
            invariant
                i <= self.values.len(),
                self.values@.len() == given.values@.len(),
                self.registry == given.registry,
                self.applied == given.applied,
                given.wf(),
                rule == rule_for_item(path@, time as int),
                given.applied@.push(rule).drop_last() == given.applied@,
                forall|j: int|
                    0 <= j < self.values@.len() ==> (#[trigger] self.values@[j]).item@
                        == given.values@[j].item@,
                forall|j: int|
                    0 <= j < i ==> (#[trigger] self.values@[j]).time == duration(
                        given.applied@.push(rule),
                        self.values@[j].item@,
                        given.registry.item_tags@,
                    ),
                forall|j: int| i <= j < self.values@.len() ==> self.values@[j] == given.values@[j],
            decreases self.values.len() - i,
        {
            assert(given.applied@.push(rule).last() == rule);
            assert(self.values@[i as int] == given.values@[i as int]);
            if self.values[i].item.is_vanilla(path) {
                self.values[i].time = time;
            }
            i = i + 1;
        }
        proof {
            self.applied@ = self.applied@.push(rule);
        }
    }

    /// Gives the item of a block a duration. A block and its item share their
    /// identifier.
    fn add_block(&mut self, path: &str, time: i32)
        requires
            old(self).wf(),
        ensures
            final(self).wf(),
            final(self).rules() == old(self).rules().push(rule_for_item(path@, time as int)),
            final(self).registry() == old(self).registry(),
    {
        self.add_item(path, time);
    }

    /// Gives the items of a tag a duration.
    fn add_tag(&mut self, path: &str, time: i32)
        requires
            old(self).wf(),
        ensures
            final(self).wf(),
            final(self).rules() == old(self).rules().push(rule_for_tag(path@, time as int)),
            final(self).registry() == old(self).registry(),
    {
        let ghost rule = rule_for_tag(path@, time as int);
        let ghost given = *self;
        let registry = self.registry;
        let tag = by_key(&registry.item_tags, &Identifier::vanilla(path));
        assert(given.applied@.push(rule).drop_last() =~= given.applied@);
        assert(given.applied@.push(rule).last() == rule);
        if let Some(tag) = tag {
            let mut i: usize = 0;
            while i < self.values.len()
                invariant
                    i <= self.values.len(),
                    self.values@.len() == given.values@.len(),
                    self.registry == given.registry,
                    self.applied == given.applied,
                    given.wf(),
                    rule == rule_for_tag(path@, time as int),
                    given.applied@.push(rule).drop_last() == given.applied@,
                    given.applied@.push(rule).last() == rule,
                    find(given.registry.item_tags@, vanilla_id(path@)) == Some(*tag),
                    forall|j: int|
                        0 <= j < self.values@.len() ==> (#[trigger] self.values@[j]).item@
                            == given.values@[j].item@,
                    forall|j: int|
                        0 <= j < i ==> (#[trigger] self.values@[j]).time == duration(
                            given.applied@.push(rule),
                            self.values@[j].item@,
                            given.registry.item_tags@,
                        ),
                    forall|j: int|
                        i <= j < self.values@.len() ==> self.values@[j] == given.values@[j],
                decreases self.values.len() - i,
            {
                assert(self.values@[i as int] == given.values@[i as int]);
                if contains_id(&tag.values, &self.values[i].item) {
                    self.values[i].time = time;
                }
                i = i + 1;
            }
        }
        proof {
            self.applied@ = self.applied@.push(rule);
        }
    }

    /// Takes the durations of a tag's items away.
    fn remove_tag(&mut self, path: &str)
        requires
            old(self).wf(),
        ensures
            final(self).wf(),
            final(self).rules() == old(self).rules().push(rule_for_tag(path@, 0)),
            final(self).registry() == old(self).registry(),
    {
        self.add_tag(path, 0);
    }

    fn build(self) -> (fuels: FuelValues)
        requires
            self.wf(),
        ensures
            forall|item: Id| #[trigger]
                fuels.time_of(item) == if find(self.registry().items@, item) is Some {
                    duration(self.rules(), item, self.registry().item_tags@)
                } else {
                    0
                },
    {
        proof {
            assert forall|item: Id| #[trigger]
                listed(self.values@, item) == if find(self.registry().items@, item) is Some {
                    duration(self.rules(), item, self.registry().item_tags@)
                } else {
                    0
                } by {
                lemma_same_keys(self.values@, self.registry.items@, item);
                lemma_find(self.values@, item);
            }
        }
        FuelValues { values: self.values }
    }
}

/// A table that lists the items in the same order finds the same items.
proof fn lemma_same_keys(values: Seq<FuelValue>, items: Seq<Item>, item: Id)
    requires
        values.len() == items.len(),
        forall|i: int| 0 <= i < values.len() ==> (#[trigger] values[i]).item@ == items[i].key@,
    ensures
        (find(values, item) is Some) == (find(items, item) is Some),
    decreases values.len(),
{
    if values.len() > 0 {
        assert(values[0].item@ == items[0].key@);
        assert forall|i: int| 0 <= i < values.drop_first().len() implies (
        #[trigger] values.drop_first()[i]).item@ == items.drop_first()[i].key@ by {
            assert(values[i + 1].item@ == items[i + 1].key@);
        }
        lemma_same_keys(values.drop_first(), items.drop_first(), item);
    }
}

/// The furnace fuel values of the registered items.
pub fn vanilla_fuel_values(registry: &Registry) -> (fuels: FuelValues)
    ensures
        forall|item: Id| #[trigger]
            fuels.time_of(item) == if find(registry.items@, item) is Some {
                duration(vanilla_rules(200), item, registry.item_tags@)
            } else {
                0
            },
{
    FuelValues::vanilla(STANDARD_BURN_TIME, registry)
}

/// Of the rules that cover an item, the last decides.
pub proof fn law_last_rule_decides(rules: Seq<FuelRule>, position: int, item: Id, tags: Seq<Tag>)
    requires
        0 <= position < rules.len(),
        rules[position].covers(item, tags),
        forall|i: int| position < i < rules.len() ==> !(#[trigger] rules[i]).covers(item, tags),
    ensures
        duration(rules, item, tags) == rules[position].time,
    decreases rules.len(),
{
    if position < rules.len() - 1 {
        assert(!rules[rules.len() - 1].covers(item, tags));
        let rest = rules.drop_last();
        assert forall|i: int| position < i < rest.len() implies !(#[trigger] rest[i]).covers(
            item,
            tags,
        ) by {
            assert(!rules[i].covers(item, tags));
        }
        law_last_rule_decides(rest, position, item, tags);
    }
}

/// No item burns for a negative time, unless the time unit is negative.
pub proof fn law_durations_are_not_negative(base: int, item: Id, tags: Seq<Tag>)
    requires
        base >= 0,
    ensures
        duration(vanilla_rules(base), item, tags) >= 0,
{
    let rules = vanilla_rules(base);
    assert forall|i: int| 0 <= i < rules.len() implies (#[trigger] rules[i]).time >= 0 by {
    }
    lemma_no_negative_rule(rules, item, tags);
}

proof fn lemma_no_negative_rule(rules: Seq<FuelRule>, item: Id, tags: Seq<Tag>)
    requires
        forall|i: int| 0 <= i < rules.len() ==> (#[trigger] rules[i]).time >= 0,
    ensures
        duration(rules, item, tags) >= 0,
    decreases rules.len(),
{
    if rules.len() > 0 {
        assert(rules[rules.len() - 1].time >= 0);
        lemma_no_negative_rule(rules.drop_last(), item, tags);
    }
}

/// Wood that does not burn is no fuel, whatever else it is.
pub proof fn law_non_flammable_wood_is_no_fuel(base: int, item: Id, tags: Seq<Tag>)
    requires
        is_tagged(tags, vanilla_id("non_flammable_wood"@), item),
    ensures
        duration(vanilla_rules(base), item, tags) == 0,
{
    assert(vanilla_rules(base).last() == rule_for_tag("non_flammable_wood"@, 0));
}

/// A burn duration is a number of 32 bits.
pub proof fn lemma_time_fits(fuels: FuelValues, item: Id)
    ensures
        i32::MIN <= fuels.time_of(item) <= i32::MAX,
{
}

} // verus!
