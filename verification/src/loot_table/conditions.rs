//! Conditions under which loot is generated.
use vstd::prelude::*;

use crate::data_components::map::DataComponentMap;
use crate::ident::{Id, Identifier};
use crate::item_stack::{ItemStack, Stack};
use crate::keyed::{by_key, contains_id, find, holds_id, Tag};
use crate::loot_table::enchanting::{level_of, level_on};
use crate::loot_table::error::{LootError, LootResult};
use crate::loot_table::number::{stack_of, NumberProvider, NumberProviderRange};
use crate::random::Random;
use crate::registry::Registry;

verus! {

/// A block position.
#[derive(Debug, Clone, Copy, PartialEq, Eq, Structural)]
pub struct BlockPos {
    pub x: i32,
    pub y: i32,
    pub z: i32,
}

/// A block with the values of its properties.
#[derive(Debug)]
pub struct BlockState {
    pub block: Identifier,
    pub properties: Vec<(String, String)>,
}

/// A set of registry values: listed, or those of a tag.
#[derive(Debug)]
pub enum HolderSet {
    Direct(Vec<Identifier>),
    Tag(Identifier),
}

impl HolderSet {
    /// Whether the set holds a value.
    pub open spec fn holds(self, tags: Seq<Tag>, id: Id) -> bool {
        match self {
            HolderSet::Direct(values) => holds_id(values@, id),
            HolderSet::Tag(key) => match find(tags, key@) {
                Some(tag) => holds_id(tag.values@, id),
                None => false,
            },
        }
    }

    /// Whether the set names a tag that exists, or none.
    pub open spec fn known(self, tags: Seq<Tag>) -> bool {
        match self {
            HolderSet::Direct(_) => true,
            HolderSet::Tag(key) => find(tags, key@) is Some,
        }
    }

    /// Whether the set holds a value.
    pub fn contains(&self, tags: &Vec<Tag>, key: &Identifier) -> (found: bool)
        ensures
            found == self.holds(tags@, key@),
    {
        match self {
            HolderSet::Direct(values) => contains_id(values, key),
            HolderSet::Tag(tag) => match by_key(tags, tag) {
                Some(tag) => contains_id(&tag.values, key),
                None => false,
            },
        }
    }

    /// The failure of looking up the set's tag, where there is one.
    pub open spec fn failure(self, tags: Seq<Tag>, registry: &'static str) -> LootResult<()> {
        match self {
            HolderSet::Tag(key) => if find(tags, key@) is Some {
                Ok(())
            } else {
                Err(LootError::UnknownRegistryTag { registry, key })
            },
            HolderSet::Direct(_) => Ok(()),
        }
    }

    /// Fails where the set names an unknown tag.
    pub fn validate(&self, tags: &Vec<Tag>, registry: &'static str) -> (result: LootResult<()>)
        ensures
            result == self.failure(tags@, registry),
    {
        match self {
            HolderSet::Direct(_) => Ok(()),
            HolderSet::Tag(key) => match by_key(tags, key) {
                Some(_) => Ok(()),
                None => Err(LootError::UnknownRegistryTag { registry, key: key.clone() }),
            },
        }
    }
}

/// A property name and the value that it must have.
pub open spec fn has_property(
    properties: Seq<(String, String)>,
    name: Seq<char>,
    value: Seq<char>,
) -> bool {
    exists|i: int|
        0 <= i < properties.len() && (#[trigger] properties[i]).0@ == name && properties[i].1@
            == value
}

/// Whether a state has all the wanted property values.
pub open spec fn has_properties(
    properties: Seq<(String, String)>,
    wanted: Seq<(String, String)>,
) -> bool {
    forall|i: int|
        0 <= i < wanted.len() ==> has_property(
            properties,
            (#[trigger] wanted[i]).0@,
            wanted[i].1@,
        )
}

/// Whether a state has all the wanted property values.
fn matches_properties(
    properties: &Vec<(String, String)>,
    wanted: &Vec<(String, String)>,
) -> (all: bool)
    ensures
        all == has_properties(properties@, wanted@),
{
    let mut i: usize = 0;
    while i < wanted.len()
        invariant
            i <= wanted.len(),
            forall|j: int|
                0 <= j < i ==> has_property(
                    properties@,
                    (#[trigger] wanted@[j]).0@,
                    wanted@[j].1@,
                ),
        decreases wanted.len() - i,
    {
        let mut found = false;
        let mut k: usize = 0;
        while k < properties.len()
            invariant
                k <= properties.len(),
                i < wanted.len(),
                found ==> has_property(properties@, wanted@[i as int].0@, wanted@[i as int].1@),
                !found ==> forall|j: int|
                    0 <= j < k ==> !((#[trigger] properties@[j]).0@ == wanted@[i as int].0@
                        && properties@[j].1@ == wanted@[i as int].1@),
            decreases properties.len() - k,
        {
            if properties[k].0 == wanted[i].0 && properties[k].1 == wanted[i].1 {
                found = true;
            }
            k = k + 1;
        }
        if !found {
            assert(!has_property(properties@, wanted@[i as int].0@, wanted@[i as int].1@));
            return false;
        }
        i = i + 1;
    }
    true
}

/// What a block has to be.
#[derive(Debug)]
pub struct BlockPredicate {
    pub blocks: Option<HolderSet>,
    pub properties: Vec<(String, String)>,
}

impl BlockPredicate {
    pub open spec fn admits(self, state: BlockState, tags: Seq<Tag>) -> bool {
        (self.blocks matches Some(blocks) ==> blocks.holds(tags, state.block@)) && has_properties(
            state.properties@,
            self.properties@,
        )
    }

    fn test(&self, state: &BlockState, tags: &Vec<Tag>) -> (admitted: bool)
        ensures
            admitted == self.admits(*state, tags@),
    {
        let known = match &self.blocks {
            Some(blocks) => blocks.contains(tags, &state.block),
            None => true,
        };
        known && matches_properties(&state.properties, &self.properties)
    }
}

/// What a location has to be.
#[derive(Debug)]
pub struct LocationPredicate {
    pub biomes: Option<HolderSet>,
    pub block: Option<BlockPredicate>,
}

/// What an item stack has to be.
#[derive(Debug)]
pub struct ToolPredicate {
    pub items: Option<HolderSet>,
    /// Enchantments and the levels that they must at least have.
    pub enchantments: Vec<(Identifier, i32)>,
}

impl ToolPredicate {
    pub open spec fn admits(self, stack: Stack, tags: Seq<Tag>) -> bool {
        &&& self.items matches Some(items) ==> items.holds(tags, stack.item)
        &&& forall|i: int|
            0 <= i < self.enchantments@.len() ==> level_of(
                stack,
                (#[trigger] self.enchantments@[i]).0@,
            ) >= self.enchantments@[i].1
    }

    pub fn test(&self, stack: &ItemStack, tags: &Vec<Tag>) -> (admitted: bool)
        ensures
            admitted == self.admits(stack@, tags@),
    {
        if let Some(items) = &self.items {
            if !items.contains(tags, &stack.item.key) {
                return false;
            }
        }
        let mut i: usize = 0;
        while i < self.enchantments.len()
            invariant
                i <= self.enchantments.len(),
                forall|j: int|
                    0 <= j < i ==> level_of(stack@, (#[trigger] self.enchantments@[j]).0@)
                        >= self.enchantments@[j].1,
            decreases self.enchantments.len() - i,
        {
            if stack.get_enchantment_level(&self.enchantments[i].0) < self.enchantments[i].1 {
                return false;
            }
            i = i + 1;
        }
        true
    }
}

/// What is known of an entity that takes part in a loot evaluation.
#[derive(Debug)]
pub struct EntityRef {
    pub entity_type: Identifier,
    pub is_on_fire: bool,
}

/// What an entity has to be.
#[derive(Debug)]
pub struct EntityPredicate {
    pub entity_type: Option<Identifier>,
    pub is_on_fire: Option<bool>,
}

impl EntityPredicate {
    pub open spec fn admits(self, entity: EntityRef) -> bool {
        &&& self.entity_type matches Some(key) ==> key@ == entity.entity_type@
        &&& self.is_on_fire matches Some(burning) ==> burning == entity.is_on_fire
    }

    fn test(&self, entity: &EntityRef) -> (admitted: bool)
        ensures
            admitted == self.admits(*entity),
    {
        if let Some(key) = &self.entity_type {
            if !key.same(&entity.entity_type) {
                return false;
            }
        }
        match self.is_on_fire {
            Some(burning) => burning == entity.is_on_fire,
            None => true,
        }
    }
}

/// The part that an entity has in a loot evaluation.
#[derive(Debug, Clone, Copy, PartialEq, Eq, Structural)]
pub enum LootContextEntity {
    This,
    Attacker,
    DirectAttacker,
}

/// The parts of the world that conditions ask for.
#[derive(Debug)]
pub struct LootLevel {
    pub is_raining: bool,
    pub is_thundering: bool,
    pub day_time: i64,
    /// The biomes of the loaded positions.
    pub biomes: Vec<(BlockPos, Identifier)>,
    /// The loaded blocks.
    pub blocks: Vec<(BlockPos, BlockState)>,
}

impl LootLevel {
    /// The block at a position, where it is loaded.
    pub open spec fn block(blocks: Seq<(BlockPos, BlockState)>, pos: BlockPos) -> Option<
        BlockState,
    >
        decreases blocks.len(),
    {
        if blocks.len() == 0 {
            None
        } else if blocks[0].0 == pos {
            Some(blocks[0].1)
        } else {
            LootLevel::block(blocks.drop_first(), pos)
        }
    }

    /// The biome at a position, where it is loaded.
    pub open spec fn biome(biomes: Seq<(BlockPos, Identifier)>, pos: BlockPos) -> Option<
        Identifier,
    >
        decreases biomes.len(),
    {
        if biomes.len() == 0 {
            None
        } else if biomes[0].0 == pos {
            Some(biomes[0].1)
        } else {
            LootLevel::biome(biomes.drop_first(), pos)
        }
    }

    fn biome_at(&self, pos: BlockPos) -> (biome: Option<&Identifier>)
        ensures
            match biome {
                Some(biome) => LootLevel::biome(self.biomes@, pos) == Some(*biome),
                None => LootLevel::biome(self.biomes@, pos) is None,
            },
    {
        let mut i: usize = 0;
        assert(self.biomes@.skip(0) =~= self.biomes@);
        while i < self.biomes.len()
            invariant
                i <= self.biomes.len(),
                LootLevel::biome(self.biomes@, pos) == LootLevel::biome(
                    self.biomes@.skip(i as int),
                    pos,
                ),
            decreases self.biomes.len() - i,
        {
            assert(self.biomes@.skip(i as int).drop_first() =~= self.biomes@.skip(i + 1));
            if self.biomes[i].0 == pos {
                return Some(&self.biomes[i].1);
            }
            i = i + 1;
        }
        None
    }

    fn block_state_at(&self, pos: BlockPos) -> (state: Option<&BlockState>)
        ensures
            match state {
                Some(state) => LootLevel::block(self.blocks@, pos) == Some(*state),
                None => LootLevel::block(self.blocks@, pos) is None,
            },
    {
        let mut i: usize = 0;
        assert(self.blocks@.skip(0) =~= self.blocks@);
        while i < self.blocks.len()
            invariant
                i <= self.blocks.len(),
                LootLevel::block(self.blocks@, pos) == LootLevel::block(
                    self.blocks@.skip(i as int),
                    pos,
                ),
            decreases self.blocks.len() - i,
        {
            assert(self.blocks@.skip(i as int).drop_first() =~= self.blocks@.skip(i + 1));
            if self.blocks[i].0 == pos {
                return Some(&self.blocks[i].1);
            }
            i = i + 1;
        }
        None
    }
}

/// What a loot evaluation knows of the world. Nothing of it changes during the evaluation.
#[derive(Debug)]
pub struct LootContext<'a> {
    pub registry: &'a Registry,
    /// The luck, as a numerator over `UNIT_STEPS`.
    pub luck: i64,
    pub tool: Option<&'a ItemStack>,
    /// The chance of each item to survive an explosion, as a numerator over
    /// `UNIT_STEPS`, where there was one.
    pub explosion_survival: Option<u32>,
    pub origin: Option<BlockPos>,
    pub level: Option<&'a LootLevel>,
    pub block_state: Option<&'a BlockState>,
    /// The components of the block entity, where there is one.
    pub block_entity: Option<&'a DataComponentMap>,
    pub this_entity: Option<&'a EntityRef>,
    pub killer_entity: Option<&'a EntityRef>,
    pub direct_killer_entity: Option<&'a EntityRef>,
    pub killed_by_player: bool,
    /// Whether the damage came directly from its source, where there was damage.
    pub damage_is_direct: Option<bool>,
    /// Whether the enchantment that caused the evaluation is active, where one did.
    pub enchantment_active: Option<bool>,
}

impl<'a> LootContext<'a> {
    /// A context that knows nothing but the registered values.
    pub fn new(registry: &'a Registry) -> (context: Self)
        ensures
            context == (LootContext {
                registry,
                luck: 0,
                tool: None,
                explosion_survival: None,
                origin: None,
                level: None,
                block_state: None,
                block_entity: None,
                this_entity: None,
                killer_entity: None,
                direct_killer_entity: None,
                killed_by_player: false,
                damage_is_direct: None,
                enchantment_active: None,
            }),
    {
        LootContext {
            registry,
            luck: 0,
            tool: None,
            explosion_survival: None,
            origin: None,
            level: None,
            block_state: None,
            block_entity: None,
            this_entity: None,
            killer_entity: None,
            direct_killer_entity: None,
            killed_by_player: false,
            damage_is_direct: None,
            enchantment_active: None,
        }
    }

    /// The entity with a part in the evaluation.
    pub open spec fn entity(self, part: LootContextEntity) -> Option<&'a EntityRef> {
        match part {
            LootContextEntity::This => self.this_entity,
            LootContextEntity::Attacker => self.killer_entity,
            LootContextEntity::DirectAttacker => self.direct_killer_entity,
        }
    }

    /// The level of an enchantment on the tool.
    pub open spec fn tool_level(self, enchantment: Id) -> int {
        level_on(stack_of(self.tool), enchantment)
    }

    /// The level of an enchantment on the tool.
    pub fn get_enchantment_level_by_id(&self, enchantment: &Identifier) -> (level: i32)
        ensures
            level == self.tool_level(enchantment@),
            0 <= level <= crate::loot_table::enchanting::MAX_LEVEL,
    {
        match self.tool {
            Some(tool) => tool.get_enchantment_level(enchantment),
            None => 0,
        }
    }
}

/// A condition of a loot evaluation. Chances are numerators over `UNIT_STEPS`.
#[allow(inconsistent_fields)]
#[derive(Debug)]
pub enum LootCondition {
    Inverted(Box<LootCondition>),
    AnyOf(Vec<LootCondition>),
    AllOf(Vec<LootCondition>),
    SurvivesExplosion,
    BlockStateProperty { block: Identifier, properties: Vec<(String, String)> },
    RandomChance(i64),
    RandomChanceWithEnchantedBonus {
        enchantment: Identifier,
        unenchanted_chance: i64,
        enchanted_base: i64,
        enchanted_per_level: i64,
    },
    MatchTool(ToolPredicate),
    TableBonus { enchantment: Identifier, chances: Vec<i64> },
    KilledByPlayer,
    EntityProperties { entity: LootContextEntity, predicate: EntityPredicate },
    DamageSourceProperties { is_direct: Option<bool> },
    LocationCheck { offset_x: i32, offset_y: i32, offset_z: i32, predicate: LocationPredicate },
    TimeCheck { value: NumberProviderRange, period: Option<i64> },
    ValueCheck { value: NumberProvider, range: NumberProviderRange },
    WeatherCheck { raining: Option<bool>, thundering: Option<bool> },
    EntityScores { entity: LootContextEntity },
    Reference(Identifier),
    EnchantmentActiveCheck { active: bool },
}

impl NumberProviderRange {
    pub open spec fn sound(self) -> bool {
        (self.min matches Some(min) ==> min.sound()) && (self.max matches Some(max) ==> max.sound())
    }

    /// Whether a number lies within the bounds, and the state after they were drawn.
    /// The upper bound is not drawn for a number below the lower one.
    pub open spec fn admits<R: Random>(self, value: int, tool: Option<Stack>, random: R) -> (
        LootResult<bool>,
        R,
    ) {
        let low = match self.min {
            Some(min) => match min.integer(tool, random) {
                (Ok(bound), after) => (Ok(value >= bound), after),
                (Err(error), after) => (Err(error), after),
            },
            None => (Ok(true), random),
        };
        match low {
            (Ok(true), random) => match self.max {
                Some(max) => match max.integer(tool, random) {
                    (Ok(bound), after) => (Ok(value <= bound), after),
                    (Err(error), after) => (Err(error), after),
                },
                None => (Ok(true), random),
            },
            _ => low,
        }
    }

    /// Whether a number lies within the bounds.
    fn test<R: Random>(&self, value: i32, tool: Option<&ItemStack>, random: &mut R) -> (result:
        LootResult<bool>)
        requires
            self.sound(),
            old(random).valid(),
        ensures
            final(random).valid(),
            (result, *final(random)) == self.admits(value as int, stack_of(tool), *old(random)),
    {
        if let Some(min) = &self.min {
            match min.get_int(tool, random) {
                Ok(bound) => {
                    if value < bound {
                        return Ok(false);
                    }
                },
                Err(error) => {
                    return Err(error);
                },
            }
        }
        if let Some(max) = &self.max {
            match max.get_int(tool, random) {
                Ok(bound) => {
                    return Ok(value <= bound);
                },
                Err(error) => {
                    return Err(error);
                },
            }
        }
        Ok(true)
    }
}

/// A draw that has to lie below `chance`, and the state after it.
pub open spec fn chance_outcome<R: Random>(chance: int, random: R) -> (LootResult<bool>, R) {
    (Ok(random.unit().0 < chance), random.unit().1)
}

/// The chance at a level: the last one serves for all the levels beyond it.
pub open spec fn bonus_chance(chances: Seq<i64>, level: int) -> int {
    if chances.len() == 0 {
        0
    } else if level < chances.len() {
        chances[level] as int
    } else {
        chances.last() as int
    }
}

/// The time of day that a check sees.
pub open spec fn checked_time(day_time: int, period: Option<i64>) -> int {
    match period {
        Some(period) => if period > 0 {
            day_time % (period as int)
        } else {
            day_time
        },
        None => day_time,
    }
}

/// A number that may not fit, kept to the range of `i32`.
pub open spec fn clamped(value: int) -> int {
    if value < i32::MIN {
        i32::MIN as int
    } else if value > i32::MAX {
        i32::MAX as int
    } else {
        value
    }
}

/// A block position moved by an offset, wrapping at the ends of the range.
pub open spec fn moved(pos: BlockPos, x: i32, y: i32, z: i32) -> BlockPos {
    BlockPos {
        x: pos.x.wrapping_add(x),
        y: pos.y.wrapping_add(y),
        z: pos.z.wrapping_add(z),
    }
}

impl LocationPredicate {
    /// Whether the place that `pos` names is as wanted.
    pub open spec fn admits(self, level: LootLevel, pos: BlockPos, registry: Registry) -> bool {
        &&& self.biomes matches Some(biomes) ==> match LootLevel::biome(level.biomes@, pos) {
            Some(biome) => biomes.holds(registry.biome_tags@, biome@),
            None => false,
        }
        &&& self.block matches Some(block) ==> match LootLevel::block(level.blocks@, pos) {
            Some(state) => block.admits(state, registry.block_tags@),
            None => false,
        }
    }

    fn test(&self, level: &LootLevel, pos: BlockPos, registry: &Registry) -> (admitted: bool)
        ensures
            admitted == self.admits(*level, pos, *registry),
    {
        if let Some(biomes) = &self.biomes {
            match level.biome_at(pos) {
                Some(biome) => {
                    if !biomes.contains(&registry.biome_tags, biome) {
                        return false;
                    }
                },
                None => {
                    return false;
                },
            }
        }
        if let Some(block) = &self.block {
            match level.block_state_at(pos) {
                Some(state) => {
                    return block.test(state, &registry.block_tags);
                },
                None => {
                    return false;
                },
            }
        }
        true
    }
}

/// Whether all conditions hold, and the state after they were tested. Conditions
/// after one that fails are not tested.
pub open spec fn all_hold<R: Random>(
    conditions: Seq<LootCondition>,
    context: LootContext,
    random: R,
) -> (LootResult<bool>, R)
    decreases conditions,
{
    if conditions.len() == 0 {
        (Ok(true), random)
    } else {
        match conditions[0].outcome(context, random) {
            (Ok(true), after) => all_hold(conditions.drop_first(), context, after),
            (Ok(false), after) => (Ok(false), after),
            (Err(error), after) => (Err(error), after),
        }
    }
}

/// Whether one of the conditions holds, and the state after they were tested.
/// Conditions after one that holds are not tested.
pub open spec fn any_holds<R: Random>(
    conditions: Seq<LootCondition>,
    context: LootContext,
    random: R,
) -> (LootResult<bool>, R)
    decreases conditions,
{
    if conditions.len() == 0 {
        (Ok(false), random)
    } else {
        match conditions[0].outcome(context, random) {
            (Ok(false), after) => any_holds(conditions.drop_first(), context, after),
            (Ok(true), after) => (Ok(true), after),
            (Err(error), after) => (Err(error), after),
        }
    }
}

/// All the numbers in the conditions can be drawn.
pub open spec fn sound_conditions(conditions: Seq<LootCondition>) -> bool
    decreases conditions,
{
    forall|i: int| 0 <= i < conditions.len() ==> (#[trigger] conditions[i]).sound()
}

impl LootCondition {
    /// All the numbers in the condition can be drawn.
    pub open spec fn sound(self) -> bool
        decreases self,
    {
        match self {
            LootCondition::Inverted(inner) => inner.sound(),
            LootCondition::AnyOf(children) => sound_conditions(children@),
            LootCondition::AllOf(children) => sound_conditions(children@),
            LootCondition::TimeCheck { value, .. } => value.sound(),
            LootCondition::ValueCheck { value, range } => value.sound() && range.sound(),
            _ => true,
        }
    }

    /// Whether the condition holds, and the state after it was tested.
    pub open spec fn outcome<R: Random>(self, context: LootContext, random: R) -> (
        LootResult<bool>,
        R,
    )
        decreases self,
    {
        match self {
            LootCondition::Inverted(inner) => match inner.outcome(context, random) {
                (Ok(holds), after) => (Ok(!holds), after),
                (Err(error), after) => (Err(error), after),
            },
            LootCondition::AnyOf(children) => any_holds(children@, context, random),
            LootCondition::AllOf(children) => all_hold(children@, context, random),
            LootCondition::SurvivesExplosion => match context.explosion_survival {
                Some(survival) => (Ok(random.unit().0 <= survival), random.unit().1),
                None => (Ok(true), random),
            },
            LootCondition::BlockStateProperty { block, properties } => (
                Ok(
                    match context.block_state {
                        Some(state) => state.block@ == block@ && has_properties(
                            state.properties@,
                            properties@,
                        ),
                        None => false,
                    },
                ),
                random,
            ),
            LootCondition::RandomChance(chance) => chance_outcome(chance as int, random),
            LootCondition::RandomChanceWithEnchantedBonus {
                enchantment,
                unenchanted_chance,
                enchanted_base,
                enchanted_per_level,
            } => {
                let level = context.tool_level(enchantment@);
                let chance = if level > 0 {
                    NumberProvider::at_level(
                        enchanted_base as int,
                        enchanted_per_level as int,
                        level,
                    )
                } else {
                    unenchanted_chance as int
                };
                chance_outcome(chance, random)
            },
            LootCondition::MatchTool(predicate) => (
                Ok(
                    match context.tool {
                        Some(tool) => predicate.admits(tool@, context.registry.item_tags@),
                        None => false,
                    },
                ),
                random,
            ),
            LootCondition::TableBonus { enchantment, chances } => chance_outcome(
                bonus_chance(chances@, context.tool_level(enchantment@)),
                random,
            ),
            LootCondition::KilledByPlayer => (Ok(context.killed_by_player), random),
            LootCondition::EntityProperties { entity, predicate } => (
                Ok(
                    match context.entity(entity) {
                        Some(entity) => predicate.admits(*entity),
                        None => false,
                    },
                ),
                random,
            ),
            LootCondition::DamageSourceProperties { is_direct } => (
                Ok(
                    match context.damage_is_direct {
                        Some(direct) => is_direct matches Some(wanted) ==> wanted == direct,
                        None => false,
                    },
                ),
                random,
            ),
            LootCondition::LocationCheck { offset_x, offset_y, offset_z, predicate } => (
                match (context.origin, context.level) {
                    (None, _) => Err(LootError::MissingOrigin("location_check")),
                    (Some(_), None) => Err(LootError::MissingLevel("location_check")),
                    (Some(origin), Some(level)) => Ok(
                        predicate.admits(
                            *level,
                            moved(origin, offset_x, offset_y, offset_z),
                            *context.registry,
                        ),
                    ),
                },
                random,
            ),
            LootCondition::TimeCheck { value, period } => match context.level {
                Some(level) => value.admits(
                    clamped(checked_time(level.day_time as int, period)),
                    stack_of(context.tool),
                    random,
                ),
                None => (Err(LootError::MissingLevel("time_check")), random),
            },
            LootCondition::ValueCheck { value, range } => match value.integer(
                stack_of(context.tool),
                random,
            ) {
                (Ok(number), after) => range.admits(number, stack_of(context.tool), after),
                (Err(error), after) => (Err(error), after),
            },
            LootCondition::WeatherCheck { raining, thundering } => match context.level {
                Some(level) => (
                    Ok(
                        (raining matches Some(wanted) ==> wanted == level.is_raining) && (
                        thundering matches Some(wanted) ==> wanted == level.is_thundering),
                    ),
                    random,
                ),
                None => (Err(LootError::MissingLevel("weather_check")), random),
            },
            LootCondition::EntityScores { .. } => (
                Err(LootError::UnsupportedCondition("entity_scores")),
                random,
            ),
            LootCondition::Reference(_) => (
                Err(LootError::UnsupportedCondition("reference")),
                random,
            ),
            LootCondition::EnchantmentActiveCheck { active } => (
                Ok(context.enchantment_active == Some(active)),
                random,
            ),
        }
    }

    /// Whether the condition holds.
    pub fn test<R: Random>(&self, context: &LootContext, random: &mut R) -> (result: LootResult<
        bool,
    >)
        requires
            self.sound(),
            old(random).valid(),
        ensures
            final(random).valid(),
            (result, *final(random)) == self.outcome(*context, *old(random)),
        decreases self,
    {
        match self {
            LootCondition::Inverted(inner) => match inner.test(context, random) {
                Ok(holds) => Ok(!holds),
                Err(error) => Err(error),
            },
            LootCondition::AnyOf(children) => {
                let mut i: usize = 0;
                assert(children@.skip(0) =~= children@);
                #[verifier::loop_isolation(false)]
                while i < children.len()
                    invariant
                        i <= children.len(),
                        sound_conditions(children@),
                        random.valid(),
                        any_holds(children@, *context, *old(random)) == any_holds(
                            children@.skip(i as int),
                            *context,
                            *random,
                        ),
                    decreases children.len() - i,
                {
                    assert(children@.skip(i as int).drop_first() =~= children@.skip(i + 1));
                    match children[i].test(context, random) {
                        Ok(true) => {
                            return Ok(true);
                        },
                        Ok(false) => {},
                        Err(error) => {
                            return Err(error);
                        },
                    }
                    i = i + 1;
                }
                Ok(false)
            },
            LootCondition::AllOf(children) => {
                let mut i: usize = 0;
                assert(children@.skip(0) =~= children@);
                #[verifier::loop_isolation(false)]
                while i < children.len()
                    invariant
                        i <= children.len(),
                        sound_conditions(children@),
                        random.valid(),
                        all_hold(children@, *context, *old(random)) == all_hold(
                            children@.skip(i as int),
                            *context,
                            *random,
                        ),
                    decreases children.len() - i,
                {
                    assert(children@.skip(i as int).drop_first() =~= children@.skip(i + 1));
                    match children[i].test(context, random) {
                        Ok(true) => {},
                        Ok(false) => {
                            return Ok(false);
                        },
                        Err(error) => {
                            return Err(error);
                        },
                    }
                    i = i + 1;
                }
                Ok(true)
            },
            LootCondition::SurvivesExplosion => match context.explosion_survival {
                Some(survival) => Ok(random.next_unit() <= survival),
                None => Ok(true),
            },
            LootCondition::BlockStateProperty { block, properties } => Ok(
                match context.block_state {
                    Some(state) => state.block.same(block) && matches_properties(
                        &state.properties,
                        properties,
                    ),
                    None => false,
                },
            ),
            LootCondition::RandomChance(chance) => Ok((random.next_unit() as i64) < *chance),
            LootCondition::RandomChanceWithEnchantedBonus {
                enchantment,
                unenchanted_chance,
                enchanted_base,
                enchanted_per_level,
            } => {
                let level: i32 = context.get_enchantment_level_by_id(enchantment);
                let chance: i128 = if level > 0 {
                    let growth: i64 = *enchanted_per_level;
                    assert(-0x8000_0000_0000_0000 * 255 <= growth * (level - 1)
                        <= 0x8000_0000_0000_0000 * 255) by (nonlinear_arith)
                        requires
                            -0x8000_0000_0000_0000 <= growth < 0x8000_0000_0000_0000,
                            0 <= level <= 255,
                    ;
                    *enchanted_base as i128 + growth as i128 * (level as i128 - 1)
                } else {
                    *unenchanted_chance as i128
                };
                Ok((random.next_unit() as i128) < chance)
            },
            LootCondition::MatchTool(predicate) => Ok(
                match context.tool {
                    Some(tool) => predicate.test(tool, &context.registry.item_tags),
                    None => false,
                },
            ),
            LootCondition::TableBonus { enchantment, chances } => {
                let level: i32 = context.get_enchantment_level_by_id(enchantment);
                let chance: i64 = if chances.len() == 0 {
                    0
                } else if (level as usize) < chances.len() {
                    chances[level as usize]
                } else {
                    chances[chances.len() - 1]
                };
                Ok((random.next_unit() as i64) < chance)
            },
            LootCondition::KilledByPlayer => Ok(context.killed_by_player),
            LootCondition::EntityProperties { entity, predicate } => {
                let entity = match entity {
                    LootContextEntity::This => context.this_entity,
                    LootContextEntity::Attacker => context.killer_entity,
                    LootContextEntity::DirectAttacker => context.direct_killer_entity,
                };
                match entity {
                    Some(entity) => Ok(predicate.test(entity)),
                    None => Ok(false),
                }
            },
            LootCondition::DamageSourceProperties { is_direct } => Ok(
                match (context.damage_is_direct, *is_direct) {
                    (Some(direct), Some(wanted)) => wanted == direct,
                    (Some(_), None) => true,
                    (None, _) => false,
                },
            ),
            LootCondition::LocationCheck { offset_x, offset_y, offset_z, predicate } => {
                match (context.origin, context.level) {
                    (None, _) => Err(LootError::MissingOrigin("location_check")),
                    (Some(_), None) => Err(LootError::MissingLevel("location_check")),
                    (Some(origin), Some(level)) => {
                        let pos = BlockPos {
                            x: origin.x.wrapping_add(*offset_x),
                            y: origin.y.wrapping_add(*offset_y),
                            z: origin.z.wrapping_add(*offset_z),
                        };
                        Ok(predicate.test(level, pos, context.registry))
                    },
                }
            },
            LootCondition::TimeCheck { value, period } => match context.level {
                Some(level) => {
                    let time: i64 = match *period {
                        Some(period) => if period > 0 {
                            match level.day_time.checked_rem_euclid(period) {
                                Some(rest) => rest,
                                None => level.day_time,
                            }
                        } else {
                            level.day_time
                        },
                        None => level.day_time,
                    };
                    let time: i32 = if time < i32::MIN as i64 {
                        i32::MIN
                    } else if time > i32::MAX as i64 {
                        i32::MAX
                    } else {
                        time as i32
                    };
                    value.test(time, context.tool, random)
                },
                None => Err(LootError::MissingLevel("time_check")),
            },
            LootCondition::ValueCheck { value, range } => match value.get_int(
                context.tool,
                random,
            ) {
                Ok(number) => range.test(number, context.tool, random),
                Err(error) => Err(error),
            },
            LootCondition::WeatherCheck { raining, thundering } => match context.level {
                Some(level) => {
                    let rain = match *raining {
                        Some(wanted) => wanted == level.is_raining,
                        None => true,
                    };
                    let thunder = match *thundering {
                        Some(wanted) => wanted == level.is_thundering,
                        None => true,
                    };
                    Ok(rain && thunder)
                },
                None => Err(LootError::MissingLevel("weather_check")),
            },
            LootCondition::EntityScores { .. } => Err(
                LootError::UnsupportedCondition("entity_scores"),
            ),
            LootCondition::Reference(_) => Err(LootError::UnsupportedCondition("reference")),
            LootCondition::EnchantmentActiveCheck { active } => Ok(
                match context.enchantment_active {
                    Some(current) => current == *active,
                    None => false,
                },
            ),
        }
    }
}

/// Whether all conditions hold.
pub fn test_all<R: Random>(
    conditions: &Vec<LootCondition>,
    context: &LootContext,
    random: &mut R,
) -> (result: LootResult<bool>)
    requires
        sound_conditions(conditions@),
        old(random).valid(),
    ensures
        final(random).valid(),
        (result, *final(random)) == all_hold(conditions@, *context, *old(random)),
{
    let mut i: usize = 0;
    assert(conditions@.skip(0) =~= conditions@);
    while i < conditions.len()
        invariant
            i <= conditions.len(),
            sound_conditions(conditions@),
            random.valid(),
            all_hold(conditions@, *context, *old(random)) == all_hold(
                conditions@.skip(i as int),
                *context,
                *random,
            ),
        decreases conditions.len() - i,
    {
        assert(conditions@.skip(i as int).drop_first() =~= conditions@.skip(i + 1));
        match conditions[i].test(context, random) {
            Ok(true) => {},
            Ok(false) => {
                return Ok(false);
            },
            Err(error) => {
                return Err(error);
            },
        }
        i = i + 1;
    }
    Ok(true)
}

} // verus!
