//! Changes that loot functions make to item stacks.
use vstd::prelude::*;

use crate::data_components::map::DataComponentMap;
use crate::data_components::{
    integer_of, record_in, Component, ComponentData, ComponentKind, DataComponentGetter,
};
use crate::ident::{vanilla_id, Id, Identifier};
use crate::item_stack::{Item, ItemStack, Stack};
use crate::keyed::{by_key, find};
use crate::loot_table::enchanting::{enchantment_component, enchantments_of, level_of};
use crate::loot_table::number::in_range;
use crate::nbt::{
    law_removed_entry_is_gone, law_stored_tag_is_found, lookup, stored, without, Nbt, NbtCompound, NbtTag,
};
use crate::random::UNIT_STEPS;
use crate::registry::Registry;

verus! {

/// The parts of a component that has named parts; none where it is absent.
pub open spec fn record_of(stack: Stack, id: Id, kind: ComponentKind) -> Seq<(Seq<char>, Nbt)> {
    match record_in(stack.component(id), kind) {
        Some(entries) => entries,
        None => Seq::empty(),
    }
}

/// A stack with a component that has named parts.
pub open spec fn with_record(
    stack: Stack,
    id: Id,
    kind: ComponentKind,
    entries: Seq<(Seq<char>, Nbt)>,
) -> Stack {
    stack.with(id, Component { kind, value: Nbt::Compound(entries) })
}

/// The stack as one of another item: its count and its own changes stay.
pub open spec fn transmuted(stack: Stack, item: Item) -> Stack {
    Stack { item: item.key@, prototype: item.components@, ..stack }
}

/// Levels after one of them was set; a level of zero takes the enchantment away.
pub open spec fn with_level(
    entries: Seq<(Seq<char>, Nbt)>,
    enchantment: Id,
    level: i32,
) -> Seq<(Seq<char>, Nbt)> {
    if level > 0 {
        stored(entries, enchantment.text(), Nbt::Int(level))
    } else {
        without(entries, enchantment.text())
    }
}

/// Levels after several of them were set, in order.
pub open spec fn with_levels(
    entries: Seq<(Seq<char>, Nbt)>,
    levels: Seq<(Identifier, i32)>,
) -> Seq<(Seq<char>, Nbt)>
    decreases levels.len(),
{
    if levels.len() == 0 {
        entries
    } else {
        with_level(with_levels(entries, levels.drop_last()), levels.last().0@, levels.last().1)
    }
}

/// A stack after several of its enchantment levels were set.
pub open spec fn enchanted(stack: Stack, levels: Seq<(Identifier, i32)>) -> Stack {
    if levels.len() == 0 {
        stack
    } else {
        let id = enchantment_component(stack.item);
        let kind = ComponentKind::Enchantments;
        with_record(stack, id, kind, with_levels(record_of(stack, id, kind), levels))
    }
}

/// The damage that leaves a fraction of the durability, or with `add` adds that
/// fraction to what is left. The fraction is a numerator over `UNIT_STEPS`.
pub open spec fn damage_for(max: int, damage: int, fraction: int, add: bool) -> int {
    let whole = max * UNIT_STEPS;
    let left = fraction * max + (if add {
        (max - damage) * UNIT_STEPS
    } else {
        0
    });
    let kept = if left < 0 {
        0
    } else if left > whole {
        whole
    } else {
        left
    };
    (whole - kept) / (UNIT_STEPS as int)
}

/// A stack after its durability was set; one that takes no damage stays as it is.
pub open spec fn damaged(stack: Stack, fraction: int, add: bool) -> Stack {
    match integer_of(stack.component(vanilla_id("max_damage"@))) {
        Some(max) => if max > 0 {
            let damage = match integer_of(stack.component(vanilla_id("damage"@))) {
                Some(damage) => damage as int,
                None => 0,
            };
            stack.with(
                vanilla_id("damage"@),
                Component {
                    kind: ComponentKind::Integer,
                    value: Nbt::Int(damage_for(max as int, damage, fraction, add) as i32),
                },
            )
        } else {
            stack
        },
        None => stack,
    }
}

/// A stack with components set, in order.
pub open spec fn with_components(stack: Stack, components: Seq<(Id, Component)>) -> Stack
    decreases components.len(),
{
    if components.len() == 0 {
        stack
    } else {
        with_components(stack, components.drop_last()).with(
            components.last().0,
            components.last().1,
        )
    }
}

/// Entries merged into others: a compound is merged into one of the same name, and
/// any other tag takes the place of the one of its name.
pub open spec fn merged(
    entries: Seq<(Seq<char>, Nbt)>,
    added: Seq<(Seq<char>, Nbt)>,
) -> Seq<(Seq<char>, Nbt)>
    decreases added,
{
    if added.len() == 0 {
        entries
    } else {
        let (name, tag) = added[0];
        let value = match (lookup(entries, name), tag) {
            (Some(Nbt::Compound(old)), Nbt::Compound(new)) => Nbt::Compound(merged(old, new)),
            _ => tag,
        };
        merged(stored(entries, name, value), added.drop_first())
    }
}

/// What a stack becomes in a furnace; one without a recipe stays as it is.
pub open spec fn smelted(stack: Stack, use_input_count: bool, registry: Registry) -> Stack {
    if stack.is_empty() {
        stack
    } else {
        match find(registry.smelting@, stack.item) {
            Some(recipe) => match find(registry.items@, recipe.output@) {
                Some(item) => Stack::of(
                    item,
                    if use_input_count {
                        stack.count
                    } else {
                        recipe.count
                    },
                ),
                None => stack,
            },
            None => stack,
        }
    }
}

/// A stack with its potion set; the rest of its potion contents stays.
pub open spec fn with_potion(stack: Stack, potion: Id) -> Stack {
    let id = vanilla_id("potion_contents"@);
    let kind = ComponentKind::PotionContents;
    with_record(
        stack,
        id,
        kind,
        stored(record_of(stack, id, kind), "potion"@, Nbt::Text(potion.text())),
    )
}

/// The effects of a suspicious stew.
pub open spec fn stew_effects(stack: Stack) -> Seq<Nbt> {
    match stack.component(vanilla_id("suspicious_stew_effects"@)) {
        Some(Component { kind: ComponentKind::StewEffects, value: Nbt::List(effects) }) => effects,
        _ => Seq::empty(),
    }
}

/// A stew with one more effect.
pub open spec fn with_stew_effect(stack: Stack, effect: Id, duration: i32) -> Stack {
    let entry = Nbt::Compound(
        seq![("id"@, Nbt::Text(effect.text())), ("duration"@, Nbt::Int(duration))],
    );
    stack.with(
        vanilla_id("suspicious_stew_effects"@),
        Component {
            kind: ComponentKind::StewEffects,
            value: Nbt::List(stew_effects(stack).push(entry)),
        },
    )
}

impl NbtCompound {
    /// Merges other entries into this compound.
    pub fn merge(&mut self, added: &NbtCompound)
        ensures
            final(self)@ == merged(old(self)@, added@),
        decreases added,
    {
        let mut i: usize = 0;
        assert(added@.skip(0) =~= added@);
        while i < added.entries.len()
            invariant
                i <= added.entries@.len() == added@.len(),
                merged(old(self)@, added@) == merged(self@, added@.skip(i as int)),
            decreases added.entries.len() - i,
        {
            assert(added@.skip(i as int).drop_first() =~= added@.skip(i + 1));
            assert(added@.skip(i as int)[0] == added@[i as int]);
            let entry = &added.entries[i];
            let name = entry.0.as_str();
            assert(decreases_to!(added => added.entries@[i as int].1));
            let value = match (self.get(name), &entry.1) {
                (Some(NbtTag::Compound(old)), NbtTag::Compound(new)) => {
                    let mut both = old.copy();
                    both.merge(new);
                    NbtTag::Compound(both)
                },
                _ => entry.1.copy(),
            };
            self.put(name, value);
            i = i + 1;
        }
    }
}

impl ItemStack {
    /// A copy of the parts of a component that has named parts.
    fn record(&self, path: &str, kind: ComponentKind) -> (entries: NbtCompound)
        ensures
            entries@ == record_of(self@, vanilla_id(path@), kind),
    {
        let key = Identifier::vanilla(path);
        match self.get_raw(&key) {
            Some(data) => match data.as_record(kind) {
                Some(entries) => entries.copy(),
                None => NbtCompound::new(),
            },
            None => NbtCompound::new(),
        }
    }

    fn set_record(&mut self, path: &str, kind: ComponentKind, entries: NbtCompound)
        ensures
            final(self)@ == with_record(old(self)@, vanilla_id(path@), kind, entries@),
    {
        self.set(path, ComponentData::new(kind, NbtTag::Compound(entries)));
    }

    /// Makes this a stack of another item.
    pub fn set_item(&mut self, item: &Item)
        ensures
            final(self)@ == transmuted(old(self)@, *item),
    {
        self.item = item.copy();
    }

    /// Sets enchantment levels, in order.
    pub fn set_enchantments(&mut self, levels: &Vec<(Identifier, i32)>)
        ensures
            final(self)@ == enchanted(old(self)@, levels@),
    {
        if levels.len() == 0 {
            return;
        }
        let path = if self.is("enchanted_book") {
            "stored_enchantments"
        } else {
            "enchantments"
        };
        let mut entries = self.record(path, ComponentKind::Enchantments);
        let ghost before = entries@;
        let mut i: usize = 0;
        while i < levels.len()
            invariant
                i <= levels.len(),
                entries@ == with_levels(before, levels@.take(i as int)),
            decreases levels.len() - i,
        {
            assert(levels@.take(i + 1).drop_last() =~= levels@.take(i as int));
            let name = levels[i].0.text();
            if levels[i].1 > 0 {
                entries.put(name.as_str(), NbtTag::Int(levels[i].1));
            } else {
                entries.remove(name.as_str());
            }
            i = i + 1;
        }
        assert(levels@.take(i as int) =~= levels@);
        self.set_record(path, ComponentKind::Enchantments, entries);
    }

    /// Sets the durability that is left, or adds to it.
    pub fn set_damage_fraction(&mut self, fraction: i128, add: bool)
        requires
            in_range(fraction as int),
        ensures
            final(self)@ == damaged(old(self)@, fraction as int, add),
    {
        let max: i32 = match self.get_integer("max_damage") {
            Some(max) => max,
            None => {
                return;
            },
        };
        if max <= 0 {
            return;
        }
        let damage: i32 = match self.get_integer("damage") {
            Some(damage) => damage,
            None => 0,
        };
        assert(-0x8000_0000_0000_0000_0000_0000 * 0x8000_0000 <= fraction * max
            <= 0x8000_0000_0000_0000_0000_0000 * 0x8000_0000) by (nonlinear_arith)
            requires
                -0x8000_0000_0000_0000_0000_0000 < fraction < 0x8000_0000_0000_0000_0000_0000,
                0 < max < 0x8000_0000,
        ;
        let whole: i128 = max as i128 * UNIT_STEPS as i128;
        let gained: i128 = if add {
            (max as i128 - damage as i128) * UNIT_STEPS as i128
        } else {
            0
        };
        let left: i128 = fraction * max as i128 + gained;
        let kept: i128 = if left < 0 {
            0
        } else if left > whole {
            whole
        } else {
            left
        };
        let next: i128 = (whole - kept) / UNIT_STEPS as i128;
        self.set("damage", ComponentData::integer(next as i32));
    }

    /// Sets components, in order.
    pub fn apply_components(&mut self, components: &DataComponentMap)
        ensures
            final(self)@ == with_components(old(self)@, components@),
    {
        let mut i: usize = 0;
        while i < components.len()
            invariant
                i <= components@.len(),
                self@ == with_components(old(self)@, components@.take(i as int)),
            decreases components@.len() - i,
        {
            assert(components@.take(i + 1).drop_last() =~= components@.take(i as int));
            let key = components.key_at(i).clone();
            let data = components.data_at(i).copy();
            self.patch.set_component_data(key, data);
            i = i + 1;
        }
        assert(components@.take(i as int) =~= components@);
    }

    /// Merges custom data into what the stack has.
    pub fn set_custom_data(&mut self, added: &NbtCompound)
        ensures
            final(self)@ == with_record(
                old(self)@,
                vanilla_id("custom_data"@),
                ComponentKind::CustomData,
                merged(
                    record_of(
                        old(self)@,
                        vanilla_id("custom_data"@),
                        ComponentKind::CustomData,
                    ),
                    added@,
                ),
            ),
    {
        let mut entries = self.record("custom_data", ComponentKind::CustomData);
        entries.merge(added);
        self.set_record("custom_data", ComponentKind::CustomData, entries);
    }

    /// Makes this what it becomes in a furnace.
    pub fn apply_furnace_smelt(&mut self, use_input_count: bool, registry: &Registry)
        ensures
            final(self)@ == smelted(old(self)@, use_input_count, *registry),
    {
        if self.is_empty() {
            return;
        }
        if let Some(recipe) = by_key(&registry.smelting, &self.item.key) {
            if let Some(item) = by_key(&registry.items, &recipe.output) {
                let count: i32 = if use_input_count {
                    self.count
                } else {
                    recipe.count
                };
                *self = ItemStack::with_count(item, count);
            }
        }
    }

    /// Sets the potion.
    pub fn set_potion(&mut self, potion: &Identifier)
        ensures
            final(self)@ == with_potion(old(self)@, potion@),
    {
        let mut entries = self.record("potion_contents", ComponentKind::PotionContents);
        let name = potion.text();
        entries.put("potion", NbtTag::Text(name));
        self.set_record("potion_contents", ComponentKind::PotionContents, entries);
    }

    /// Adds an effect to a stew.
    pub fn add_stew_effect(&mut self, effect: &Identifier, duration: i32)
        ensures
            final(self)@ == with_stew_effect(old(self)@, effect@, duration),
    {
        broadcast use crate::nbt::lemma_list_view;

        let key = Identifier::vanilla("suspicious_stew_effects");
        let mut effects: Vec<NbtTag> = Vec::new();
        let found = match self.get_raw(&key) {
            Some(data) => match (data.kind, &data.value) {
                (ComponentKind::StewEffects, NbtTag::List(tags)) => Some(tags),
                _ => None,
            },
            None => None,
        };
        if let Some(tags) = found {
            let mut i: usize = 0;
            while i < tags.len()
                invariant
                    i <= tags.len(),
                    effects.len() == i,
                    forall|j: int| 0 <= j < i ==> (#[trigger] effects@[j])@ == tags@[j]@,
                decreases tags.len() - i,
            {
                effects.push(tags[i].copy());
                i = i + 1;
            }
            assert(crate::nbt::list_view(tags@) == stew_effects(self@));
        }
        assert(crate::nbt::list_view(effects@) =~= stew_effects(self@));
        let ghost before = effects@;
        let mut entry = NbtCompound::new();
        entry.insert("id", NbtTag::Text(effect.text()));
        entry.insert("duration", NbtTag::Int(duration));
        assert(entry@ =~= seq![
            ("id"@, Nbt::Text(effect@.text())),
            ("duration"@, Nbt::Int(duration)),
        ]);
        effects.push(NbtTag::Compound(entry));
        assert(crate::nbt::list_view(effects@) =~= crate::nbt::list_view(before).push(
            Nbt::Compound(entry@),
        ));
        self.set(
            "suspicious_stew_effects",
            ComponentData::new(ComponentKind::StewEffects, NbtTag::List(effects)),
        );
    }
}

/// What is left of the durability is the fraction that was asked for, rounded up to
/// whole points, and with `add` that fraction more than before; it stays between nothing
/// and all of it.
pub proof fn law_fraction_of_durability_is_left(max: int, damage: int, fraction: int, add: bool)
    requires
        0 < max <= i32::MAX,
    ensures
        ({
            let left = max - damage_for(max, damage, fraction, add);
            let before = if add {
                max - damage
            } else {
                0
            };
            let wanted = fraction * max + before * 0x100_0000;
            &&& 0 <= left <= max
            &&& 0 <= wanted <= max * 0x100_0000 ==> (left - 1) * 0x100_0000 < wanted <= left
                * 0x100_0000
            &&& wanted < 0 ==> left == 0
            &&& wanted > max * 0x100_0000 ==> left == max
            &&& !add && fraction == 0 ==> left == 0
            &&& !add && fraction == 0x100_0000 ==> left == max
            &&& add && fraction == 0 && 0 <= damage <= max ==> left == max - damage
        }),
{
    assert(0 * max == 0) by (nonlinear_arith);
}

/// A level that was set on a stack is the one that is read of it, and the levels of
/// other enchantments stay. A level of none takes the enchantment away.
pub proof fn law_set_level_is_read(stack: Stack, enchantment: Identifier, level: i32, other: Id)
    requires
        0 <= level <= 255,
        forall|i: int, j: int|
            0 <= i < j < enchantments_of(stack).len() ==> (#[trigger] enchantments_of(stack)[i]).0
                != (#[trigger] enchantments_of(stack)[j]).0,
        other.text() != enchantment@.text(),
    ensures
        ({
            let after = enchanted(stack, seq![(enchantment, level)]);
            &&& level_of(after, enchantment@) == level
            &&& level_of(after, other) == level_of(stack, other)
            &&& after.item == stack.item
            &&& after.count == stack.count
            &&& forall|id: Id|
                id != enchantment_component(stack.item) ==> #[trigger] after.component(id)
                    == stack.component(id)
        }),
{
    let levels = seq![(enchantment, level)];
    let entries = enchantments_of(stack);
    assert(levels.drop_last() =~= Seq::<(Identifier, i32)>::empty());
    assert(with_levels(entries, levels.drop_last()) == entries);
    let text = enchantment@.text();
    law_stored_tag_is_found(entries, text, Nbt::Int(level), text);
    law_stored_tag_is_found(entries, text, Nbt::Int(level), other.text());
    law_removed_entry_is_gone(entries, text, text);
    law_removed_entry_is_gone(entries, text, other.text());
    let after = enchanted(stack, levels);
    assert(enchantments_of(after) == with_level(entries, enchantment@, level));
}

/// Merging leaves every entry alone whose name is not among those that are merged in.
pub proof fn law_merging_keeps_other_entries(
    entries: Seq<(Seq<char>, Nbt)>,
    added: Seq<(Seq<char>, Nbt)>,
    name: Seq<char>,
)
    requires
        forall|i: int| 0 <= i < added.len() ==> (#[trigger] added[i]).0 != name,
    ensures
        lookup(merged(entries, added), name) == lookup(entries, name),
    decreases added.len(),
{
    if added.len() > 0 {
        let (first, tag) = added[0];
        let value = match (lookup(entries, first), tag) {
            (Some(Nbt::Compound(old)), Nbt::Compound(new)) => Nbt::Compound(merged(old, new)),
            _ => tag,
        };
        law_stored_tag_is_found(entries, first, value, name);
        assert forall|i: int| 0 <= i < added.drop_first().len() implies (
        #[trigger] added.drop_first()[i]).0 != name by {
            assert(added.drop_first()[i] == added[i + 1]);
        }
        law_merging_keeps_other_entries(stored(entries, first, value), added.drop_first(), name);
    }
}

/// An entry that is merged in is found: itself, or what it is merged with where both are
/// compounds.
pub proof fn law_merged_entry_is_found(
    entries: Seq<(Seq<char>, Nbt)>,
    added: Seq<(Seq<char>, Nbt)>,
    at: int,
)
    requires
        0 <= at < added.len(),
        forall|i: int, j: int|
            0 <= i < j < added.len() ==> (#[trigger] added[i]).0 != (#[trigger] added[j]).0,
    ensures
        lookup(merged(entries, added), added[at].0) == Some(
            match (lookup(entries, added[at].0), added[at].1) {
                (Some(Nbt::Compound(old)), Nbt::Compound(new)) => Nbt::Compound(merged(old, new)),
                _ => added[at].1,
            },
        ),
    decreases added.len(),
{
    let (first, tag) = added[0];
    let value = match (lookup(entries, first), tag) {
        (Some(Nbt::Compound(old)), Nbt::Compound(new)) => Nbt::Compound(merged(old, new)),
        _ => tag,
    };
    let rest = added.drop_first();
    law_stored_tag_is_found(entries, first, value, added[at].0);
    assert forall|i: int, j: int| 0 <= i < j < rest.len() implies (#[trigger] rest[i]).0 != (
    #[trigger] rest[j]).0 by {
        assert(rest[i] == added[i + 1]);
        assert(rest[j] == added[j + 1]);
    }
    if at == 0 {
        assert forall|i: int| 0 <= i < rest.len() implies (#[trigger] rest[i]).0 != first by {
            assert(rest[i] == added[i + 1]);
        }
        law_merging_keeps_other_entries(stored(entries, first, value), rest, first);
    } else {
        assert(rest[at - 1] == added[at]);
        law_merged_entry_is_found(stored(entries, first, value), rest, at - 1);
    }
}

/// The component that was set last under an identifier is the effective one, and no
/// other component changes.
pub proof fn law_last_component_decides(stack: Stack, components: Seq<(Id, Component)>, at: int)
    requires
        0 <= at < components.len(),
        forall|later: int|
            at < later < components.len() ==> (#[trigger] components[later]).0 != components[at].0,
    ensures
        with_components(stack, components).component(components[at].0) == Some(components[at].1),
        with_components(stack, components).count == stack.count,
        with_components(stack, components).item == stack.item,
        forall|id: Id|
            (forall|i: int| 0 <= i < components.len() ==> (#[trigger] components[i]).0 != id)
                ==> #[trigger] with_components(stack, components).component(id) == stack.component(
                id,
            ),
    decreases components.len(),
{
    lemma_other_components_stay(stack, components);
    if at < components.len() - 1 {
        let earlier = components.drop_last();
        assert(components[components.len() - 1].0 != components[at].0);
        assert forall|later: int| at < later < earlier.len() implies (#[trigger] earlier[later]).0
            != earlier[at].0 by {
            assert(earlier[later] == components[later]);
        }
        law_last_component_decides(stack, earlier, at);
    }
}

proof fn lemma_other_components_stay(stack: Stack, components: Seq<(Id, Component)>)
    ensures
        with_components(stack, components).count == stack.count,
        with_components(stack, components).item == stack.item,
        with_components(stack, components).prototype == stack.prototype,
        forall|id: Id|
            (forall|i: int| 0 <= i < components.len() ==> (#[trigger] components[i]).0 != id)
                ==> #[trigger] with_components(stack, components).component(id) == stack.component(
                id,
            ),
    decreases components.len(),
{
    if components.len() > 0 {
        let earlier = components.drop_last();
        lemma_other_components_stay(stack, earlier);
        assert forall|id: Id|
            (forall|i: int| 0 <= i < components.len() ==> (#[trigger] components[i]).0 != id)
            implies #[trigger] with_components(stack, components).component(id) == stack.component(
            id,
        ) by {
            assert forall|i: int| 0 <= i < earlier.len() implies (#[trigger] earlier[i]).0 != id by {
                assert(earlier[i] == components[i]);
            }
            assert(components[components.len() - 1].0 != id);
            assert(with_components(stack, earlier).component(id) == stack.component(id));
        }
    }
}

/// A further stew effect comes behind those that a stew has, which stay.
pub proof fn law_stew_effects_add_up(stack: Stack, effect: Id, duration: i32)
    ensures
        ({
            let before = stew_effects(stack);
            let after = stew_effects(with_stew_effect(stack, effect, duration));
            &&& after.len() == before.len() + 1
            &&& forall|i: int| 0 <= i < before.len() ==> #[trigger] after[i] == before[i]
            &&& after.last() matches Nbt::Compound(entries) && lookup(entries, "id"@) == Some(
                Nbt::Text(effect.text()),
            ) && lookup(entries, "duration"@) == Some(Nbt::Int(duration))
        }),
{
    reveal_strlit("id");
    reveal_strlit("duration");
    assert("id"@.len() != "duration"@.len());
    reveal_with_fuel(lookup, 3);
}

} // verus!
