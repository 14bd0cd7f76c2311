//! Functions that modify generated items.
use vstd::prelude::*;

use crate::data_components::map::included;
use crate::data_components::{Component, ComponentData, ComponentKind};
use crate::ident::{vanilla_id, Id, Identifier};
use crate::item_stack::{ItemStack, Stack};
use crate::keyed::{by_key, find, Tag};
use crate::loot_table::conditions::{
    all_hold, sound_conditions, test_all, LootCondition, LootContext, LootContextEntity,
    ToolPredicate,
};
use crate::loot_table::enchanting::{
    enchanted_randomly, enchanted_with_levels, level_of, made_book, MAX_LEVEL,
};
use crate::loot_table::entries::LootEntry;
use crate::loot_table::error::{ExplorationMapRequest, LootError, LootResult};
use crate::loot_table::item_ops::{
    damaged, enchanted, merged, record_of, smelted, transmuted, with_components, with_potion,
    with_record, with_stew_effect,
};
use crate::loot_table::number::{
    count_successes, round, rounded, stack_of, successes, NumberProvider,
};
use crate::nbt::{Nbt, NbtCompound, NbtTag};
use crate::random::{Random, UNIT_STEPS};
use crate::registry::{Enchantment, Registry};

verus! {

/// Options for selecting enchantments: a tag or an explicit list.
#[derive(Debug)]
pub enum EnchantmentOptions {
    Tag(Identifier),
    List(Vec<Identifier>),
}

/// Options for selecting an instrument from a registry tag or an explicit list.
#[derive(Debug)]
pub enum InstrumentOptions {
    Tag(Identifier),
    Direct(Vec<Identifier>),
}

/// A function with conditions.
#[derive(Debug)]
pub struct ConditionalLootFunction {
    pub function: LootFunction,
    pub conditions: Vec<LootCondition>,
}

/// Operation mode for list modifications (lore, book pages).
#[derive(Debug, Clone, Copy, PartialEq, Eq, Structural)]
pub enum ListOperation {
    /// Replace all existing entries.
    ReplaceAll,
    /// Replace a section of entries.
    ReplaceSection { offset: i32, size: Option<i32> },
    /// Insert before existing entries.
    InsertBefore { offset: i32 },
    /// Insert after existing entries.
    InsertAfter { offset: i32 },
    /// Append to the end.
    Append,
}

/// An attribute modifier.
#[derive(Debug)]
pub struct AttributeModifier {
    pub attribute: Identifier,
    pub operation: AttributeOperation,
    pub amount: NumberProvider,
    pub id: Identifier,
    pub slot: EquipmentSlotGroup,
}

/// The equipment slots that an attribute modifier acts in.
#[derive(Debug, Clone, Copy, PartialEq, Eq, Structural)]
pub enum EquipmentSlotGroup {
    Any,
    MainHand,
    OffHand,
    Hand,
    Feet,
    Legs,
    Chest,
    Head,
    Armor,
    Body,
}

/// How an attribute modifier changes its attribute.
#[derive(Debug, Clone, Copy, PartialEq, Eq, Structural)]
pub enum AttributeOperation {
    AddValue,
    AddMultipliedBase,
    AddMultipliedTotal,
}

/// One copied piece of custom data.
#[derive(Debug)]
pub struct CopyDataOperation {
    pub source_path: String,
    pub target_path: String,
    pub op: CopyDataOp,
}

/// How copied data joins what is there.
#[derive(Debug, Clone, Copy, PartialEq, Eq, Structural)]
pub enum CopyDataOp {
    Replace,
    Append,
    Merge,
}

#[derive(Debug, Clone, Copy, PartialEq, Eq, Structural)]
pub enum DyeColor {
    White,
    Orange,
    Magenta,
    LightBlue,
    Yellow,
    Lime,
    Pink,
    Gray,
    LightGray,
    Cyan,
    Purple,
    Blue,
    Brown,
    Green,
    Red,
    Black,
}

/// A banner pattern layer.
#[derive(Debug)]
pub struct BannerPattern {
    pub pattern: Identifier,
    pub color: DyeColor,
}

/// A firework explosion definition.
#[derive(Debug)]
pub struct FireworkExplosion {
    pub shape: FireworkShape,
    pub colors: Vec<i32>,
    pub fade_colors: Vec<i32>,
    pub has_trail: bool,
    pub has_twinkle: bool,
}

/// Firework explosion shape.
#[derive(Debug, Clone, Copy, PartialEq, Eq, Structural)]
pub enum FireworkShape {
    SmallBall,
    LargeBall,
    Star,
    Creeper,
    Burst,
}

/// Formula for a bonus by enchantment level.
#[derive(Debug, Clone, Copy, PartialEq, Eq, Structural)]
pub enum BonusFormula {
    /// Multiplies the count by one more than a draw below `level + 2`, less one but
    /// never negative.
    OreDrops,
    /// Adds a draw up to `bonus_multiplier * level`.
    UniformBonusCount { bonus_multiplier: i32 },
    /// Adds the successes of `level + extra` trials. The probability is a numerator
    /// over `UNIT_STEPS`.
    BinomialWithBonusCount { extra: i32, probability: i64 },
}

/// Source for copying components.
#[derive(Debug, Clone, Copy, PartialEq, Eq, Structural)]
pub enum CopySource {
    BlockEntity,
    This,
    Attacker,
    DirectAttacker,
}

/// Which name of an item is set.
#[derive(Debug, Clone, Copy, PartialEq, Eq, Structural)]
pub enum NameTarget {
    CustomName,
    ItemName,
}

/// A text of loot-table data.
#[derive(Debug)]
pub enum LootText {
    /// A translated message, by its key.
    Translation(String),
}

impl LootText {
    /// The text component's tag.
    pub open spec fn tag(self) -> Nbt {
        match self {
            LootText::Translation(key) => Nbt::Compound(seq![("translate"@, Nbt::Text(key@))]),
        }
    }

    /// The text component's tag.
    pub fn component(&self) -> (tag: NbtTag)
        ensures
            tag@ == self.tag(),
    {
        match self {
            LootText::Translation(key) => {
                let mut entries = NbtCompound::new();
                entries.insert("translate", NbtTag::Text(key.clone()));
                assert(entries@ =~= seq![("translate"@, Nbt::Text(key@))]);
                NbtTag::Compound(entries)
            },
        }
    }
}

/// A stew effect for suspicious stew.
#[derive(Debug)]
pub struct StewEffect {
    pub effect_type: Identifier,
    pub duration: NumberProvider,
}

/// A function that modifies loot items.
#[allow(inconsistent_fields)]
#[derive(Debug)]
pub enum LootFunction {
    /// Set the count of the item.
    SetCount { count: NumberProvider, add: bool },
    /// Each item survives the explosion with its chance.
    ExplosionDecay,
    /// Apply a bonus count based on an enchantment level.
    ApplyBonus { enchantment: Identifier, formula: BonusFormula },
    /// Increase the count based on an enchantment (like looting).
    EnchantedCountIncrease { enchantment: Identifier, count: NumberProvider, limit: i32 },
    /// Limit the count to a range.
    LimitCount { min: Option<i32>, max: Option<i32> },
    /// Set the durability that is left.
    SetDamage { damage: NumberProvider, add: bool },
    /// Enchant the item randomly with enchantments from options.
    EnchantRandomly { options: EnchantmentOptions },
    /// Enchant the item as if using an enchanting table at the specified level.
    EnchantWithLevels { levels: NumberProvider, options: EnchantmentOptions },
    /// Copy components from the source to the item; all of them where none are named.
    CopyComponents { source: CopySource, only: Option<Vec<Identifier>> },
    /// Copy block state properties to the item.
    CopyState { block: Identifier, properties: Vec<String> },
    /// Set components on the item.
    SetComponents { components: String },
    /// Merge custom data into the item's.
    SetCustomData { tag: NbtCompound },
    /// Smelt the item.
    FurnaceSmelt { use_input_count: bool },
    /// Create an exploration map pointing to a structure.
    ExplorationMap {
        destination: Identifier,
        decoration: Identifier,
        zoom: i32,
        search_radius: i32,
        skip_existing_chunks: bool,
    },
    /// Set a name of the item.
    SetName { name: LootText, target: NameTarget },
    /// Set the ominous bottle amplifier.
    SetOminousBottleAmplifier { amplifier: NumberProvider },
    /// Set the potion type.
    SetPotion { id: Identifier },
    /// Add one of the suspicious stew effects.
    SetStewEffect { effects: Vec<StewEffect> },
    /// Set the instrument for goat horns.
    SetInstrument { options: InstrumentOptions },
    /// Set enchantments on the item.
    SetEnchantments { enchantments: Vec<(Identifier, NumberProvider)>, add: bool },
    /// Change the item type entirely.
    SetItem { item: Identifier },
    /// Copy a name from an entity or a block to the item.
    CopyName { source: CopySource },
    /// Add lore lines to the item.
    SetLore { lore: Vec<String>, mode: ListOperation },
    /// Set container contents.
    SetContents { entries: Vec<LootEntry>, component_type: Identifier },
    /// Modify existing container contents.
    ModifyContents { modifier: Vec<ConditionalLootFunction>, component_type: Identifier },
    /// Set the container's loot table.
    SetLootTable { loot_table: Identifier, seed: Option<i64> },
    /// Set attribute modifiers on the item.
    SetAttributes { modifiers: Vec<AttributeModifier>, replace: bool },
    /// Fill a player head with the texture of an entity.
    FillPlayerHead { entity: LootContextEntity },
    /// Copy custom data from a source.
    CopyCustomData { source: CopySource, operations: Vec<CopyDataOperation> },
    /// Set banner pattern layers.
    SetBannerPattern { patterns: Vec<BannerPattern>, append: bool },
    /// Set firework rocket properties.
    SetFireworks { explosions: Option<Vec<FireworkExplosion>>, flight_duration: Option<i32> },
    /// Set firework star explosion properties.
    SetFireworkExplosion { explosion: FireworkExplosion },
    /// Set the book cover.
    SetBookCover { title: Option<String>, author: Option<String>, generation: Option<i32> },
    /// Set written book page contents.
    SetWrittenBookPages { pages: Vec<String>, mode: ListOperation },
    /// Set writable book page contents.
    SetWritableBookPages { pages: Vec<String>, mode: ListOperation },
    /// Toggle tooltip visibility.
    ToggleTooltips { toggles: Vec<(Identifier, bool)> },
    /// Discard the item entirely.
    Discard,
    /// A named function of the registry.
    Reference(Identifier),
    /// Apply several functions in sequence.
    Sequence { functions: Vec<ConditionalLootFunction> },
    /// Apply a function to items that a predicate matches.
    Filtered { item_filter: ToolPredicate, modifier: Box<ConditionalLootFunction> },
}

/// A lookup of an exploration map as a mathematical value.
pub ghost struct Lookup {
    pub destination: Id,
    pub decoration: Id,
    pub zoom: i32,
    pub search_radius: i32,
    pub skip_existing_chunks: bool,
}

impl View for ExplorationMapRequest {
    type V = Lookup;

    open spec fn view(&self) -> Lookup {
        Lookup {
            destination: self.destination@,
            decoration: self.decoration@,
            zoom: self.zoom,
            search_radius: self.search_radius,
            skip_existing_chunks: self.skip_existing_chunks,
        }
    }
}

/// Turns a map into an exploration map during a loot evaluation.
pub trait ExplorationMapResolver: Sized {
    /// What the resolver holds, as a mathematical value.
    type State;

    spec fn state(&self) -> Self::State;

    /// The map for a request, where there is one, and the state after it was asked for.
    spec fn resolved(state: Self::State, request: Lookup, item: Stack) -> (
        LootResult<Option<Stack>>,
        Self::State,
    );

    fn resolve(&mut self, request: &ExplorationMapRequest, item: &ItemStack) -> (map: LootResult<
        Option<ItemStack>,
    >)
        ensures
            final(self).state() == Self::resolved(old(self).state(), request@, item@).1,
            match (map, Self::resolved(old(self).state(), request@, item@).0) {
                (Ok(Some(map)), Ok(Some(expected))) => map@ == expected,
                (Ok(None), Ok(None)) => true,
                (Err(error), Err(expected)) => error == expected,
                _ => false,
            },
    ;
}

/// What a loot evaluation changes besides the items.
#[derive(Debug)]
pub struct LootState<R, M> {
    pub random: R,
    /// Resolves exploration maps, where that is possible.
    pub maps: Option<M>,
}

/// What a loot evaluation changes besides the items, as a mathematical value.
pub ghost struct Eval<R, M: ExplorationMapResolver> {
    pub random: R,
    pub maps: Option<M::State>,
}

impl<R, M: ExplorationMapResolver> View for LootState<R, M> {
    type V = Eval<R, M>;

    open spec fn view(&self) -> Eval<R, M> {
        Eval {
            random: self.random,
            maps: match self.maps {
                Some(maps) => Some(maps.state()),
                None => None,
            },
        }
    }
}

impl<R: Random, M: ExplorationMapResolver> Eval<R, M> {
    pub open spec fn valid(self) -> bool {
        self.random.valid()
    }

    /// This state with another random source.
    pub open spec fn with_random(self, random: R) -> Self {
        Eval { random, maps: self.maps }
    }
}

/// The enchantments that identifiers stand for; the first unknown one is a failure.
pub open spec fn listed_enchantments(keys: Seq<Identifier>, registry: &Registry) -> LootResult<
    Seq<&Enchantment>,
>
    decreases keys.len(),
{
    if keys.len() == 0 {
        Ok(Seq::empty())
    } else {
        match listed_enchantments(keys.drop_last(), registry) {
            Ok(before) => match find(registry.enchantments@, keys.last()@) {
                Some(enchantment) => Ok(before.push(&enchantment)),
                None => Err(
                    LootError::UnknownRegistryValue {
                        registry: "enchantment",
                        key: keys.last(),
                    },
                ),
            },
            Err(error) => Err(error),
        }
    }
}

/// The enchantments of a tag that are registered.
pub open spec fn tagged_enchantments(keys: Seq<Identifier>, registry: &Registry) -> Seq<
    &Enchantment,
>
    decreases keys.len(),
{
    if keys.len() == 0 {
        Seq::empty()
    } else {
        let before = tagged_enchantments(keys.drop_last(), registry);
        match find(registry.enchantments@, keys.last()@) {
            Some(enchantment) => before.push(&enchantment),
            None => before,
        }
    }
}

impl EnchantmentOptions {
    /// The enchantments to select from.
    pub open spec fn resolved(self, registry: &Registry) -> LootResult<Seq<&Enchantment>> {
        match self {
            EnchantmentOptions::Tag(key) => match find(registry.enchantment_tags@, key@) {
                Some(tag) => Ok(tagged_enchantments(tag.values@, registry)),
                None => Err(LootError::UnknownRegistryTag { registry: "enchantment", key }),
            },
            EnchantmentOptions::List(keys) => listed_enchantments(keys@, registry),
        }
    }

    /// The enchantments to select from.
    pub fn resolve<'a>(&self, registry: &'a Registry) -> (options: LootResult<
        Vec<&'a Enchantment>,
    >)
        ensures
            match (options, self.resolved(registry)) {
                (Ok(options), Ok(expected)) => options@ == expected,
                (Err(error), Err(expected)) => error == expected,
                _ => false,
            },
    {
        let mut options: Vec<&'a Enchantment> = Vec::new();
        match self {
            EnchantmentOptions::Tag(key) => {
                let tag = match by_key(&registry.enchantment_tags, key) {
                    Some(tag) => tag,
                    None => {
                        return Err(
                            LootError::UnknownRegistryTag {
                                registry: "enchantment",
                                key: key.clone(),
                            },
                        );
                    },
                };
                let mut i: usize = 0;
                while i < tag.values.len()
                    invariant
                        i <= tag.values.len(),
                        options@ == tagged_enchantments(tag.values@.take(i as int), registry),
                    decreases tag.values.len() - i,
                {
                    assert(tag.values@.take(i + 1).drop_last() =~= tag.values@.take(i as int));
                    if let Some(enchantment) = by_key(&registry.enchantments, &tag.values[i]) {
                        options.push(enchantment);
                    }
                    i = i + 1;
                }
                assert(tag.values@.take(i as int) =~= tag.values@);
            },
            EnchantmentOptions::List(keys) => {
                let mut i: usize = 0;
                while i < keys.len()
                    invariant
                        i <= keys.len(),
                        self.resolved(registry) == listed_enchantments(keys@, registry),
                        listed_enchantments(keys@.take(i as int), registry) == Ok::<
                            Seq<&Enchantment>,
                            LootError,
                        >(options@),
                    decreases keys.len() - i,
                {
                    assert(keys@.take(i + 1).drop_last() =~= keys@.take(i as int));
                    match by_key(&registry.enchantments, &keys[i]) {
                        Some(enchantment) => {
                            options.push(enchantment);
                        },
                        None => {
                            proof {
                                lemma_first_unknown(keys@, registry, i + 1);
                            }
                            return Err(
                                LootError::UnknownRegistryValue {
                                    registry: "enchantment",
                                    key: keys[i].clone(),
                                },
                            );
                        },
                    }
                    i = i + 1;
                }
                assert(keys@.take(i as int) =~= keys@);
            },
        }
        Ok(options)
    }
}

/// The failure of the first identifiers is that of all of them.
proof fn lemma_first_unknown(keys: Seq<Identifier>, registry: &Registry, count: int)
    requires
        0 <= count <= keys.len(),
        listed_enchantments(keys.take(count), registry) is Err,
    ensures
        listed_enchantments(keys, registry) == listed_enchantments(keys.take(count), registry),
    decreases keys.len() - count,
{
    if count < keys.len() {
        assert(keys.take(count + 1).drop_last() =~= keys.take(count));
        lemma_first_unknown(keys, registry, count + 1);
    } else {
        assert(keys.take(count) =~= keys);
    }
}

/// The values that an instrument is chosen from.
pub open spec fn instrument_choices(options: InstrumentOptions, tags: Seq<Tag>) -> LootResult<
    Seq<Identifier>,
> {
    match options {
        InstrumentOptions::Tag(key) => match find(tags, key@) {
            Some(tag) => Ok(tag.values@),
            None => Err(LootError::UnknownRegistryTag { registry: "instrument", key }),
        },
        InstrumentOptions::Direct(values) => Ok(values@),
    }
}

impl InstrumentOptions {
    /// An instrument chosen at random, and the state after the choice. Nothing is
    /// drawn where there is nothing to choose from.
    pub open spec fn chosen<R: Random>(self, tags: Seq<Tag>, random: R) -> (
        LootResult<Option<Id>>,
        R,
    ) {
        match instrument_choices(self, tags) {
            Ok(values) => if values.len() == 0 || values.len() > i32::MAX {
                (Ok(None), random)
            } else {
                let drawn = random.bounded(values.len() as int);
                (Ok(Some(values[drawn.0]@)), drawn.1)
            },
            Err(error) => (Err(error), random),
        }
    }

    fn get_random<'a, R: Random>(&'a self, tags: &'a Vec<Tag>, random: &mut R) -> (chosen:
        LootResult<Option<&'a Identifier>>)
        requires
            old(random).valid(),
        ensures
            final(random).valid(),
            *final(random) == self.chosen(tags@, *old(random)).1,
            match (chosen, self.chosen(tags@, *old(random)).0) {
                (Ok(Some(key)), Ok(Some(id))) => key@ == id,
                (Ok(None), Ok(None)) => true,
                (Err(error), Err(expected)) => error == expected,
                _ => false,
            },
    {
        let values = match self {
            InstrumentOptions::Tag(key) => match by_key(tags, key) {
                Some(tag) => &tag.values,
                None => {
                    return Err(
                        LootError::UnknownRegistryTag { registry: "instrument", key: key.clone() },
                    );
                },
            },
            InstrumentOptions::Direct(values) => values,
        };
        if values.len() == 0 || values.len() > i32::MAX as usize {
            return Ok(None);
        }
        let index: i32 = random.next_i32_bounded(values.len() as i32);
        Ok(Some(&values[index as usize]))
    }
}

impl BonusFormula {
    /// The draws of the formula are from ranges that exist, at every level.
    pub open spec fn sound(self) -> bool {
        match self {
            BonusFormula::OreDrops => true,
            BonusFormula::UniformBonusCount { bonus_multiplier } => 0 <= bonus_multiplier
                && bonus_multiplier * MAX_LEVEL < i32::MAX,
            BonusFormula::BinomialWithBonusCount { extra, .. } => extra + MAX_LEVEL <= i32::MAX,
        }
    }

    /// The draws of the formula are from ranges that exist, at one level.
    pub open spec fn draws_at(self, level: int) -> bool {
        match self {
            BonusFormula::OreDrops => level + 2 <= i32::MAX,
            BonusFormula::UniformBonusCount { bonus_multiplier } => level > 0 ==> 0
                <= bonus_multiplier * level < i32::MAX,
            BonusFormula::BinomialWithBonusCount { extra, .. } => i32::MIN <= level + extra
                <= i32::MAX,
        }
    }

    proof fn lemma_draws_at_every_level(self, level: int)
        requires
            self.sound(),
            0 <= level <= MAX_LEVEL,
        ensures
            self.draws_at(level),
    {
        if let BonusFormula::UniformBonusCount { bonus_multiplier } = self {
            assert(0 <= bonus_multiplier * level <= bonus_multiplier * MAX_LEVEL)
                by (nonlinear_arith)
                requires
                    0 <= bonus_multiplier,
                    0 <= level <= MAX_LEVEL,
            ;
        }
    }

    /// The count with the bonus, and the state after the draws. A count that does
    /// not fit wraps around.
    pub open spec fn with_bonus<R: Random>(self, count: i32, level: int, random: R) -> (i32, R) {
        match self {
            BonusFormula::OreDrops => if level > 0 {
                let drawn = random.bounded(level + 2);
                let bonus = if drawn.0 > 1 {
                    drawn.0 - 1
                } else {
                    0
                };
                (count.wrapping_mul((bonus + 1) as i32), drawn.1)
            } else {
                (count, random)
            },
            BonusFormula::UniformBonusCount { bonus_multiplier } => if level > 0 {
                let drawn = random.bounded(bonus_multiplier * level + 1);
                (count.wrapping_add(drawn.0 as i32), drawn.1)
            } else {
                (count, random)
            },
            BonusFormula::BinomialWithBonusCount { extra, probability } => {
                let drawn = successes(random, level + extra, probability as int);
                (count.wrapping_add(drawn.0 as i32), drawn.1)
            },
        }
    }

    /// Calculates the new count.
    pub fn apply<R: Random>(&self, count: i32, level: i32, random: &mut R) -> (result: i32)
        requires
            self.draws_at(level as int),
            old(random).valid(),
        ensures
            final(random).valid(),
            (result, *final(random)) == self.with_bonus(count, level as int, *old(random)),
    {
        match self {
            BonusFormula::OreDrops => {
                if level > 0 {
                    let bonus: i32 = random.next_i32_bounded(level + 2) - 1;
                    let multiplier: i32 = if bonus > 0 {
                        bonus + 1
                    } else {
                        1
                    };
                    count.wrapping_mul(multiplier)
                } else {
                    count
                }
            },
            BonusFormula::UniformBonusCount { bonus_multiplier } => {
                if level > 0 {
                    let bonus: i32 = random.next_i32_bounded(*bonus_multiplier * level + 1);
                    count.wrapping_add(bonus)
                } else {
                    count
                }
            },
            BonusFormula::BinomialWithBonusCount { extra, probability } => {
                let bonus: i32 = count_successes(random, level + *extra, *probability);
                count.wrapping_add(bonus)
            },
        }
    }
}

/// All the numbers in the functions can be drawn.
pub open spec fn sound_functions(functions: Seq<ConditionalLootFunction>) -> bool
    decreases functions,
{
    forall|i: int|
        0 <= i < functions.len() ==> sound_conditions((#[trigger] functions[i]).conditions@)
            && functions[i].function.sound()
}

/// The levels that a function sets, and the state after they were drawn.
pub open spec fn provided_levels<R: Random>(
    enchantments: Seq<(Identifier, NumberProvider)>,
    add: bool,
    stack: Stack,
    context: LootContext,
    random: R,
) -> (LootResult<Seq<(Identifier, i32)>>, R)
    decreases enchantments.len(),
{
    if enchantments.len() == 0 {
        (Ok(Seq::empty()), random)
    } else {
        match provided_levels(enchantments.drop_last(), add, stack, context, random) {
            (Ok(before), random) => {
                let (key, provider) = enchantments.last();
                if find(context.registry.enchantments@, key@) is None {
                    (
                        Err(LootError::UnknownRegistryValue { registry: "enchantment", key }),
                        random,
                    )
                } else {
                    match provider.integer(stack_of(context.tool), random) {
                        (Ok(provided), after) => (
                            Ok(before.push((key, level_to_set(stack, key@, provided as i32, add)))),
                            after,
                        ),
                        (Err(error), after) => (Err(error), after),
                    }
                }
            },
            failed => failed,
        }
    }
}

/// The level that is set: what was provided, or that on top of what is there, kept
/// from zero to `MAX_LEVEL`.
pub open spec fn level_to_set(stack: Stack, enchantment: Id, provided: i32, add: bool) -> i32 {
    let level = if add {
        (level_of(stack, enchantment) as i32).wrapping_add(provided)
    } else {
        provided
    };
    if level < 0 {
        0
    } else if level > MAX_LEVEL {
        MAX_LEVEL
    } else {
        level
    }
}

impl LootFunction {
    /// The name of a function that is not supported.
    pub open spec fn unsupported(self) -> Option<&'static str> {
        match self {
            LootFunction::CopyState { .. } => Some("copy_state"),
            LootFunction::SetComponents { .. } => Some("set_components"),
            LootFunction::CopyName { .. } => Some("copy_name"),
            LootFunction::SetLore { .. } => Some("set_lore"),
            LootFunction::SetContents { .. } => Some("set_contents"),
            LootFunction::ModifyContents { .. } => Some("modify_contents"),
            LootFunction::SetLootTable { .. } => Some("set_loot_table"),
            LootFunction::SetAttributes { .. } => Some("set_attributes"),
            LootFunction::FillPlayerHead { .. } => Some("fill_player_head"),
            LootFunction::CopyCustomData { .. } => Some("copy_custom_data"),
            LootFunction::SetBannerPattern { .. } => Some("set_banner_pattern"),
            LootFunction::SetFireworks { .. } => Some("set_fireworks"),
            LootFunction::SetFireworkExplosion { .. } => Some("set_firework_explosion"),
            LootFunction::SetBookCover { .. } => Some("set_book_cover"),
            LootFunction::SetWrittenBookPages { .. } => Some("set_written_book_pages"),
            LootFunction::SetWritableBookPages { .. } => Some("set_writable_book_pages"),
            LootFunction::ToggleTooltips { .. } => Some("toggle_tooltips"),
            LootFunction::Reference(_) => Some("reference"),
            _ => None,
        }
    }

    /// The name of a function that is not supported.
    pub fn unsupported_name(&self) -> (name: Option<&'static str>)
        ensures
            name == self.unsupported(),
    {
        match self {
            LootFunction::CopyState { .. } => Some("copy_state"),
            LootFunction::SetComponents { .. } => Some("set_components"),
            LootFunction::CopyName { .. } => Some("copy_name"),
            LootFunction::SetLore { .. } => Some("set_lore"),
            LootFunction::SetContents { .. } => Some("set_contents"),
            LootFunction::ModifyContents { .. } => Some("modify_contents"),
            LootFunction::SetLootTable { .. } => Some("set_loot_table"),
            LootFunction::SetAttributes { .. } => Some("set_attributes"),
            LootFunction::FillPlayerHead { .. } => Some("fill_player_head"),
            LootFunction::CopyCustomData { .. } => Some("copy_custom_data"),
            LootFunction::SetBannerPattern { .. } => Some("set_banner_pattern"),
            LootFunction::SetFireworks { .. } => Some("set_fireworks"),
            LootFunction::SetFireworkExplosion { .. } => Some("set_firework_explosion"),
            LootFunction::SetBookCover { .. } => Some("set_book_cover"),
            LootFunction::SetWrittenBookPages { .. } => Some("set_written_book_pages"),
            LootFunction::SetWritableBookPages { .. } => Some("set_writable_book_pages"),
            LootFunction::ToggleTooltips { .. } => Some("toggle_tooltips"),
            LootFunction::Reference(_) => Some("reference"),
            _ => None,
        }
    }

    /// All the numbers in the function can be drawn.
    pub open spec fn sound(self) -> bool
        decreases self,
    {
        match self {
            LootFunction::SetCount { count, .. } => count.sound(),
            LootFunction::ApplyBonus { formula, .. } => formula.sound(),
            LootFunction::EnchantWithLevels { levels, .. } => levels.sound(),
            LootFunction::SetOminousBottleAmplifier { amplifier } => amplifier.sound(),
            LootFunction::SetStewEffect { effects } => forall|i: int|
                0 <= i < effects@.len() ==> (#[trigger] effects@[i]).duration.sound(),
            LootFunction::SetEnchantments { enchantments, .. } => forall|i: int|
                0 <= i < enchantments@.len() ==> (#[trigger] enchantments@[i]).1.sound(),
            LootFunction::Sequence { functions } => sound_functions(functions@),
            LootFunction::Filtered { modifier, .. } => sound_conditions(modifier.conditions@)
                && modifier.function.sound(),
            _ => true,
        }
    }

    /// The result of the function, the item after it and the state after it.
    pub open spec fn applied<R: Random, M: ExplorationMapResolver>(
        self,
        item: Stack,
        context: LootContext,
        state: Eval<R, M>,
    ) -> (LootResult<()>, Stack, Eval<R, M>)
        decreases self,
    {
        let tool = stack_of(context.tool);
        let registry = context.registry;
        match self {
            LootFunction::SetCount { count, add } => match count.integer(tool, state.random) {
                (Ok(value), random) => (
                    Ok(()),
                    item.with_count(
                        if add {
                            item.count.wrapping_add(value as i32)
                        } else {
                            value as i32
                        },
                    ),
                    state.with_random(random),
                ),
                (Err(error), random) => (Err(error), item, state.with_random(random)),
            },
            LootFunction::ExplosionDecay => match context.explosion_survival {
                Some(survival) => {
                    let kept = successes(state.random, item.count as int, survival + 1);
                    (Ok(()), item.with_count(kept.0 as i32), state.with_random(kept.1))
                },
                None => (Ok(()), item, state),
            },
            LootFunction::ApplyBonus { enchantment, formula } => {
                let level = context.tool_level(enchantment@);
                let bonus = formula.with_bonus(item.count, level, state.random);
                (Ok(()), item.with_count(bonus.0), state.with_random(bonus.1))
            },
            LootFunction::EnchantedCountIncrease { enchantment, count, limit } => {
                let level = context.tool_level(enchantment@);
                if level > 0 {
                    match count.number(tool, state.random) {
                        (Ok(value), random) => {
                            let grown = rounded(value * level);
                            let bonus = if limit > 0 && grown > limit {
                                limit as int
                            } else {
                                grown
                            };
                            (
                                Ok(()),
                                item.with_count(item.count.wrapping_add(bonus as i32)),
                                state.with_random(random),
                            )
                        },
                        (Err(error), random) => (Err(error), item, state.with_random(random)),
                    }
                } else {
                    (Ok(()), item, state)
                }
            },
            LootFunction::LimitCount { min, max } => {
                let raised = match min {
                    Some(min) => if item.count < min {
                        min
                    } else {
                        item.count
                    },
                    None => item.count,
                };
                let limited = match max {
                    Some(max) => if raised > max {
                        max
                    } else {
                        raised
                    },
                    None => raised,
                };
                (Ok(()), item.with_count(limited), state)
            },
            LootFunction::SetDamage { damage, add } => match damage.number(tool, state.random) {
                (Ok(fraction), random) => (
                    Ok(()),
                    damaged(item, fraction, add),
                    state.with_random(random),
                ),
                (Err(error), random) => (Err(error), item, state.with_random(random)),
            },
            LootFunction::EnchantRandomly { options } => match options.resolved(registry) {
                Ok(options) => {
                    let result = enchanted_randomly(options, item, *registry, state.random);
                    (Ok(()), result.0, state.with_random(result.1))
                },
                Err(error) => (Err(error), item, state),
            },
            LootFunction::EnchantWithLevels { levels, options } => match levels.integer(
                tool,
                state.random,
            ) {
                (Ok(level), random) => match options.resolved(registry) {
                    Ok(options) => {
                        let result = enchanted_with_levels(options, item, level, *registry, random);
                        (Ok(()), result.0, state.with_random(result.1))
                    },
                    Err(error) => (Err(error), item, state.with_random(random)),
                },
                (Err(error), random) => (Err(error), item, state.with_random(random)),
            },
            LootFunction::CopyComponents { source, only } => match source {
                CopySource::BlockEntity => match context.block_entity {
                    Some(components) => (
                        Ok(()),
                        with_components(
                            item,
                            included(
                                components@,
                                match only {
                                    Some(ids) => Some(ids@),
                                    None => None,
                                },
                            ),
                        ),
                        state,
                    ),
                    None => (Ok(()), item, state),
                },
                CopySource::This => (
                    copied_entity(context.this_entity is Some),
                    item,
                    state,
                ),
                CopySource::Attacker => (
                    copied_entity(context.killer_entity is Some),
                    item,
                    state,
                ),
                CopySource::DirectAttacker => (
                    copied_entity(context.direct_killer_entity is Some),
                    item,
                    state,
                ),
            },
            LootFunction::SetCustomData { tag } => {
                let id = vanilla_id("custom_data"@);
                let kind = ComponentKind::CustomData;
                (
                    Ok(()),
                    with_record(item, id, kind, merged(record_of(item, id, kind), tag@)),
                    state,
                )
            },
            LootFunction::FurnaceSmelt { use_input_count } => (
                Ok(()),
                smelted(item, use_input_count, *registry),
                state,
            ),
            LootFunction::ExplorationMap {
                destination,
                decoration,
                zoom,
                search_radius,
                skip_existing_chunks,
            } => if item.item == vanilla_id("map"@) && context.origin is Some {
                let request = ExplorationMapRequest {
                    destination,
                    decoration,
                    zoom,
                    search_radius,
                    skip_existing_chunks,
                };
                match state.maps {
                    Some(maps) => {
                        let (map, maps) = M::resolved(maps, request@, item);
                        let state = Eval { random: state.random, maps: Some(maps) };
                        match map {
                            Ok(Some(map)) => (Ok(()), map, state),
                            Ok(None) => (Ok(()), item, state),
                            Err(error) => (Err(error), item, state),
                        }
                    },
                    None => (Err(LootError::ExplorationMapRequired(request)), item, state),
                }
            } else {
                (Ok(()), item, state)
            },
            LootFunction::SetName { name, target } => (
                Ok(()),
                item.with(
                    match target {
                        NameTarget::CustomName => vanilla_id("custom_name"@),
                        NameTarget::ItemName => vanilla_id("item_name"@),
                    },
                    Component { kind: ComponentKind::Text, value: name.tag() },
                ),
                state,
            ),
            LootFunction::SetOminousBottleAmplifier { amplifier } => match amplifier.integer(
                tool,
                state.random,
            ) {
                (Ok(value), random) => (
                    Ok(()),
                    item.with(
                        vanilla_id("ominous_bottle_amplifier"@),
                        Component {
                            kind: ComponentKind::OminousBottleAmplifier,
                            value: Nbt::Int(
                                if value < 0 {
                                    0
                                } else if value > MAX_AMPLIFIER {
                                    MAX_AMPLIFIER
                                } else {
                                    value as i32
                                },
                            ),
                        },
                    ),
                    state.with_random(random),
                ),
                (Err(error), random) => (Err(error), item, state.with_random(random)),
            },
            LootFunction::SetPotion { id } => if find(registry.potions@, id@) is Some {
                (Ok(()), with_potion(item, id@), state)
            } else {
                (
                    Err(LootError::UnknownRegistryValue { registry: "potion", key: id }),
                    item,
                    state,
                )
            },
            LootFunction::SetStewEffect { effects } => if item.item == vanilla_id(
                "suspicious_stew"@,
            ) && 0 < effects@.len() <= i32::MAX {
                let drawn = state.random.bounded(effects@.len() as int);
                let effect = effects@[drawn.0];
                match find(registry.mob_effects@, effect.effect_type@) {
                    Some(kind) => match effect.duration.integer(tool, drawn.1) {
                        (Ok(duration), random) => (
                            Ok(()),
                            with_stew_effect(
                                item,
                                effect.effect_type@,
                                if kind.instantaneous {
                                    duration as i32
                                } else {
                                    (duration as i32).wrapping_mul(20)
                                },
                            ),
                            state.with_random(random),
                        ),
                        (Err(error), random) => (Err(error), item, state.with_random(random)),
                    },
                    None => (
                        Err(
                            LootError::UnknownRegistryValue {
                                registry: "mob effect",
                                key: effect.effect_type,
                            },
                        ),
                        item,
                        state.with_random(drawn.1),
                    ),
                }
            } else {
                (Ok(()), item, state)
            },
            LootFunction::SetInstrument { options } => match options.chosen(
                registry.instrument_tags@,
                state.random,
            ) {
                (Ok(Some(instrument)), random) => (
                    Ok(()),
                    item.with(
                        vanilla_id("instrument"@),
                        Component {
                            kind: ComponentKind::Instrument,
                            value: Nbt::Text(instrument.text()),
                        },
                    ),
                    state.with_random(random),
                ),
                (Ok(None), random) => (Ok(()), item, state.with_random(random)),
                (Err(error), random) => (Err(error), item, state.with_random(random)),
            },
            LootFunction::SetEnchantments { enchantments, add } => {
                let book = made_book(item, *registry);
                match provided_levels(enchantments@, add, book, context, state.random) {
                    (Ok(levels), random) => (
                        Ok(()),
                        enchanted(book, levels),
                        state.with_random(random),
                    ),
                    (Err(error), random) => (Err(error), book, state.with_random(random)),
                }
            },
            LootFunction::SetItem { item: key } => match find(registry.items@, key@) {
                Some(kind) => (Ok(()), transmuted(item, kind), state),
                None => (
                    Err(LootError::UnknownRegistryValue { registry: "item", key }),
                    item,
                    state,
                ),
            },
            LootFunction::Discard => (Ok(()), item.with_count(0), state),
            LootFunction::Sequence { functions } => applied_all(
                functions@,
                item,
                context,
                state,
            ),
            LootFunction::Filtered { item_filter, modifier } => if item_filter.admits(
                item,
                registry.item_tags@,
            ) {
                match all_hold(modifier.conditions@, context, state.random) {
                    (Ok(true), random) => modifier.function.applied(
                        item,
                        context,
                        state.with_random(random),
                    ),
                    (Ok(false), random) => (Ok(()), item, state.with_random(random)),
                    (Err(error), random) => (Err(error), item, state.with_random(random)),
                }
            } else {
                (Ok(()), item, state)
            },
            _ => (Err(LootError::UnsupportedFunction(self.unsupported()->Some_0)), item, state),
        }
    }
}

/// The greatest amplifier of an ominous bottle.
pub const MAX_AMPLIFIER: i32 = 4;

/// The result of copying components from an entity: nothing without one, and a
/// failure with one.
pub open spec fn copied_entity(present: bool) -> LootResult<()> {
    if present {
        Err(LootError::UnsupportedFunction("copy_components"))
    } else {
        Ok(())
    }
}

/// The result of applying functions one after another, each where its conditions
/// hold, the item after them and the state after them. The first failure ends it.
pub open spec fn applied_all<R: Random, M: ExplorationMapResolver>(
    functions: Seq<ConditionalLootFunction>,
    item: Stack,
    context: LootContext,
    state: Eval<R, M>,
) -> (LootResult<()>, Stack, Eval<R, M>)
    decreases functions,
{
    if functions.len() == 0 {
        (Ok(()), item, state)
    } else {
        match all_hold(functions[0].conditions@, context, state.random) {
            (Ok(true), random) => match functions[0].function.applied(
                item,
                context,
                state.with_random(random),
            ) {
                (Ok(()), item, state) => applied_all(functions.drop_first(), item, context, state),
                failed => failed,
            },
            (Ok(false), random) => applied_all(
                functions.drop_first(),
                item,
                context,
                state.with_random(random),
            ),
            (Err(error), random) => (Err(error), item, state.with_random(random)),
        }
    }
}

/// Draws the levels that a function sets.
fn provide_levels<R: Random>(
    enchantments: &Vec<(Identifier, NumberProvider)>,
    add: bool,
    item: &ItemStack,
    context: &LootContext,
    random: &mut R,
) -> (levels: LootResult<Vec<(Identifier, i32)>>)
    requires
        forall|i: int| 0 <= i < enchantments@.len() ==> (#[trigger] enchantments@[i]).1.sound(),
        old(random).valid(),
    ensures
        final(random).valid(),
        *final(random) == provided_levels(
            enchantments@,
            add,
            item@,
            *context,
            *old(random),
        ).1,
        match (levels, provided_levels(enchantments@, add, item@, *context, *old(random)).0) {
            (Ok(levels), Ok(expected)) => levels@ == expected,
            (Err(error), Err(expected)) => error == expected,
            _ => false,
        },
{
    let mut levels: Vec<(Identifier, i32)> = Vec::new();
    let mut i: usize = 0;
    while i < enchantments.len()
        invariant
            i <= enchantments.len(),
            forall|i: int| 0 <= i < enchantments@.len() ==> (#[trigger] enchantments@[i]).1.sound(),
            random.valid(),
            provided_levels(
                enchantments@.take(i as int),
                add,
                item@,
                *context,
                *old(random),
            ) == (Ok::<Seq<(Identifier, i32)>, LootError>(levels@), *random),
        decreases enchantments.len() - i,
    {
        let ghost seen = enchantments@.take(i + 1);
        assert(seen.drop_last() =~= enchantments@.take(i as int));
        assert(seen.last() == enchantments@[i as int]);
        let key = &enchantments[i].0;
        if by_key(&context.registry.enchantments, key).is_none() {
            proof {
                lemma_first_failure(enchantments@, add, item@, *context, *old(random), i + 1);
            }
            return Err(
                LootError::UnknownRegistryValue { registry: "enchantment", key: key.clone() },
            );
        }
        let provided: i32 = match enchantments[i].1.get_int(context.tool, random) {
            Ok(provided) => provided,
            Err(error) => {
                proof {
                    lemma_first_failure(enchantments@, add, item@, *context, *old(random), i + 1);
                }
                return Err(error);
            },
        };
        let level: i32 = if add {
            item.get_enchantment_level(key).wrapping_add(provided)
        } else {
            provided
        };
        let level: i32 = if level < 0 {
            0
        } else if level > MAX_LEVEL {
            MAX_LEVEL
        } else {
            level
        };
        levels.push((key.clone(), level));
        i = i + 1;
    }
    assert(enchantments@.take(i as int) =~= enchantments@);
    Ok(levels)
}

/// The failure of the first enchantments is that of all of them.
proof fn lemma_first_failure<R: Random>(
    enchantments: Seq<(Identifier, NumberProvider)>,
    add: bool,
    stack: Stack,
    context: LootContext,
    random: R,
    count: int,
)
    requires
        0 <= count <= enchantments.len(),
        provided_levels(enchantments.take(count), add, stack, context, random).0 is Err,
    ensures
        provided_levels(enchantments, add, stack, context, random) == provided_levels(
            enchantments.take(count),
            add,
            stack,
            context,
            random,
        ),
    decreases enchantments.len() - count,
{
    if count < enchantments.len() {
        assert(enchantments.take(count + 1).drop_last() =~= enchantments.take(count));
        lemma_first_failure(enchantments, add, stack, context, random, count + 1);
    } else {
        assert(enchantments.take(count) =~= enchantments);
    }
}

impl LootFunction {
    /// Applies this function to an item.
    #[verifier::rlimit(60)]
    pub fn apply<R: Random, M: ExplorationMapResolver>(
        &self,
        item: &mut ItemStack,
        context: &LootContext,
        state: &mut LootState<R, M>,
    ) -> (result: LootResult<()>)
        requires
            self.sound(),
            old(state)@.valid(),
        ensures
            final(state)@.valid(),
            (result, final(item)@, final(state)@) == self.applied(old(item)@, *context, old(state)@),
        decreases self,
    {
        let registry = context.registry;
        match self {
            LootFunction::SetCount { count, add } => {
                let value: i32 = match count.get_int(context.tool, &mut state.random) {
                    Ok(value) => value,
                    Err(error) => {
                        return Err(error);
                    },
                };
                if *add {
                    item.count = item.count.wrapping_add(value);
                } else {
                    item.count = value;
                }
            },
            LootFunction::ExplosionDecay => {
                if let Some(survival) = context.explosion_survival {
                    item.count = count_successes(
                        &mut state.random,
                        item.count,
                        survival as i64 + 1,
                    );
                }
            },
            LootFunction::ApplyBonus { enchantment, formula } => {
                let level: i32 = context.get_enchantment_level_by_id(enchantment);
                proof {
                    formula.lemma_draws_at_every_level(level as int);
                }
                item.count = formula.apply(item.count, level, &mut state.random);
            },
            LootFunction::EnchantedCountIncrease { enchantment, count, limit } => {
                let level: i32 = context.get_enchantment_level_by_id(enchantment);
                if level > 0 {
                    let value: i128 = match count.get(context.tool, &mut state.random) {
                        Ok(value) => value,
                        Err(error) => {
                            return Err(error);
                        },
                    };
                    assert(-0x8000_0000_0000_0000_0000_0000 * 255 <= value * level
                        <= 0x8000_0000_0000_0000_0000_0000 * 255) by (nonlinear_arith)
                        requires
                            -0x8000_0000_0000_0000_0000_0000 < value
                                < 0x8000_0000_0000_0000_0000_0000,
                            0 <= level <= 255,
                    ;
                    let grown: i32 = round(value * level as i128);
                    let bonus: i32 = if *limit > 0 && grown > *limit {
                        *limit
                    } else {
                        grown
                    };
                    item.count = item.count.wrapping_add(bonus);
                }
            },
            LootFunction::LimitCount { min, max } => {
                if let Some(min) = min {
                    if item.count < *min {
                        item.count = *min;
                    }
                }
                if let Some(max) = max {
                    if item.count > *max {
                        item.count = *max;
                    }
                }
            },
            LootFunction::SetDamage { damage, add } => {
                match damage.get(context.tool, &mut state.random) {
                    Ok(fraction) => {
                        item.set_damage_fraction(fraction, *add);
                    },
                    Err(error) => {
                        return Err(error);
                    },
                }
            },
            LootFunction::EnchantRandomly { options } => {
                match options.resolve(registry) {
                    Ok(options) => {
                        item.enchant_randomly(&options, registry, &mut state.random);
                    },
                    Err(error) => {
                        return Err(error);
                    },
                }
            },
            LootFunction::EnchantWithLevels { levels, options } => {
                let level: i32 = match levels.get_int(context.tool, &mut state.random) {
                    Ok(level) => level,
                    Err(error) => {
                        return Err(error);
                    },
                };
                match options.resolve(registry) {
                    Ok(options) => {
                        item.enchant_with_levels(level, &options, registry, &mut state.random);
                    },
                    Err(error) => {
                        return Err(error);
                    },
                }
            },
            LootFunction::CopyComponents { source, only } => {
                let present = match source {
                    CopySource::BlockEntity => {
                        if let Some(components) = context.block_entity {
                            let copied = match only {
                                Some(ids) => components.filter(Some(ids)),
                                None => components.filter(None),
                            };
                            item.apply_components(&copied);
                        }
                        false
                    },
                    CopySource::This => context.this_entity.is_some(),
                    CopySource::Attacker => context.killer_entity.is_some(),
                    CopySource::DirectAttacker => context.direct_killer_entity.is_some(),
                };
                if present {
                    return Err(LootError::UnsupportedFunction("copy_components"));
                }
            },
            LootFunction::SetCustomData { tag } => {
                item.set_custom_data(tag);
            },
            LootFunction::FurnaceSmelt { use_input_count } => {
                item.apply_furnace_smelt(*use_input_count, registry);
            },
            LootFunction::ExplorationMap {
                destination,
                decoration,
                zoom,
                search_radius,
                skip_existing_chunks,
            } => {
                if item.is("map") && context.origin.is_some() {
                    let request = ExplorationMapRequest {
                        destination: destination.clone(),
                        decoration: decoration.clone(),
                        zoom: *zoom,
                        search_radius: *search_radius,
                        skip_existing_chunks: *skip_existing_chunks,
                    };
                    match &mut state.maps {
                        Some(resolver) => match resolver.resolve(&request, item) {
                            Ok(Some(map)) => {
                                *item = map;
                            },
                            Ok(None) => {},
                            Err(error) => {
                                return Err(error);
                            },
                        },
                        None => {
                            return Err(LootError::ExplorationMapRequired(request));
                        },
                    }
                }
            },
            LootFunction::SetName { name, target } => {
                let path = match target {
                    NameTarget::CustomName => "custom_name",
                    NameTarget::ItemName => "item_name",
                };
                item.set(path, ComponentData::new(ComponentKind::Text, name.component()));
            },
            LootFunction::SetOminousBottleAmplifier { amplifier } => {
                let value: i32 = match amplifier.get_int(context.tool, &mut state.random) {
                    Ok(value) => value,
                    Err(error) => {
                        return Err(error);
                    },
                };
                let value: i32 = if value < 0 {
                    0
                } else if value > MAX_AMPLIFIER {
                    MAX_AMPLIFIER
                } else {
                    value
                };
                item.set(
                    "ominous_bottle_amplifier",
                    ComponentData::number(ComponentKind::OminousBottleAmplifier, value),
                );
            },
            LootFunction::SetPotion { id } => {
                if by_key(&registry.potions, id).is_none() {
                    return Err(
                        LootError::UnknownRegistryValue { registry: "potion", key: id.clone() },
                    );
                }
                item.set_potion(id);
            },
            LootFunction::SetStewEffect { effects } => {
                if item.is("suspicious_stew") && effects.len() > 0 && effects.len()
                    <= i32::MAX as usize {
                    let index: i32 = state.random.next_i32_bounded(effects.len() as i32);
                    let effect = &effects[index as usize];
                    let instantaneous = match by_key(&registry.mob_effects, &effect.effect_type) {
                        Some(kind) => kind.instantaneous,
                        None => {
                            return Err(
                                LootError::UnknownRegistryValue {
                                    registry: "mob effect",
                                    key: effect.effect_type.clone(),
                                },
                            );
                        },
                    };
                    let duration: i32 = match effect.duration.get_int(
                        context.tool,
                        &mut state.random,
                    ) {
                        Ok(duration) => duration,
                        Err(error) => {
                            return Err(error);
                        },
                    };
                    let duration: i32 = if instantaneous {
                        duration
                    } else {
                        duration.wrapping_mul(20)
                    };
                    item.add_stew_effect(&effect.effect_type, duration);
                }
            },
            LootFunction::SetInstrument { options } => {
                match options.get_random(&registry.instrument_tags, &mut state.random) {
                    Ok(Some(instrument)) => {
                        let name = instrument.text();
                        item.set(
                            "instrument",
                            ComponentData::new(ComponentKind::Instrument, NbtTag::Text(name)),
                        );
                    },
                    Ok(None) => {},
                    Err(error) => {
                        return Err(error);
                    },
                }
            },
            LootFunction::SetEnchantments { enchantments, add } => {
                item.make_book(registry);
                match provide_levels(enchantments, *add, item, context, &mut state.random) {
                    Ok(levels) => {
                        item.set_enchantments(&levels);
                    },
                    Err(error) => {
                        return Err(error);
                    },
                }
            },
            LootFunction::SetItem { item: key } => {
                match by_key(&registry.items, key) {
                    Some(kind) => {
                        item.set_item(kind);
                    },
                    None => {
                        return Err(
                            LootError::UnknownRegistryValue { registry: "item", key: key.clone() },
                        );
                    },
                }
            },
            LootFunction::Discard => {
                item.count = 0;
            },
            LootFunction::Sequence { functions } => {
                return apply_all(functions, item, context, state);
            },
            LootFunction::Filtered { item_filter, modifier } => {
                if item_filter.test(item, &registry.item_tags) {
                    match test_all(&modifier.conditions, context, &mut state.random) {
                        Ok(true) => {
                            return modifier.function.apply(item, context, state);
                        },
                        Ok(false) => {},
                        Err(error) => {
                            return Err(error);
                        },
                    }
                }
            },
            _ => match self.unsupported_name() {
                Some(name) => {
                    return Err(LootError::UnsupportedFunction(name));
                },
                None => {},
            },
        }
        Ok(())
    }
}

/// Applies functions one after another, each where its conditions hold.
pub fn apply_all<R: Random, M: ExplorationMapResolver>(
    functions: &Vec<ConditionalLootFunction>,
    item: &mut ItemStack,
    context: &LootContext,
    state: &mut LootState<R, M>,
) -> (result: LootResult<()>)
    requires
        sound_functions(functions@),
        old(state)@.valid(),
    ensures
        final(state)@.valid(),
        (result, final(item)@, final(state)@) == applied_all(
            functions@,
            old(item)@,
            *context,
            old(state)@,
        ),
    decreases functions,
{
    let mut i: usize = 0;
    assert(functions@.skip(0) =~= functions@);
    #[verifier::loop_isolation(false)]
    while i < functions.len()
        invariant
            i <= functions.len(),
            sound_functions(functions@),
            state@.valid(),
            applied_all(functions@, old(item)@, *context, old(state)@) == applied_all(
                functions@.skip(i as int),
                item@,
                *context,
                state@,
            ),
        decreases functions.len() - i,
    {
        assert(functions@.skip(i as int).drop_first() =~= functions@.skip(i + 1));
        let entry = &functions[i];
        match test_all(&entry.conditions, context, &mut state.random) {
            Ok(true) => {
                match entry.function.apply(item, context, state) {
                    Ok(()) => {},
                    Err(error) => {
                        return Err(error);
                    },
                }
            },
            Ok(false) => {},
            Err(error) => {
                return Err(error);
            },
        }
        i = i + 1;
    }
    Ok(())
}

} // verus!
