//! What conditions and functions of loot tables come to, alone and together.
use vstd::prelude::*;

use crate::data_components::{number_of, ComponentKind};
use crate::ident::{vanilla_id, Identifier};
use crate::item_stack::Stack;
use crate::keyed::find;
use crate::loot_table::conditions::{
    all_hold, any_holds, checked_time, LootCondition, LootContext, LootContextEntity,
};
use crate::loot_table::enchanting::level_of;
use crate::loot_table::error::LootError;
use crate::loot_table::functions::{
    applied_all, level_to_set, BonusFormula, ConditionalLootFunction, Eval, ExplorationMapResolver,
    LootFunction,
};
use crate::loot_table::item_ops::{stew_effects, with_stew_effect};
use crate::loot_table::number::{
    law_trials_add_up, stack_of, successes, NumberProvider, NumberProviderRange,
};
use crate::random::Random;

verus! {

/// A condition and its opposite never hold both, and a condition that is inverted twice
/// is the condition itself.
pub proof fn law_inverted_condition_is_the_opposite<R: Random>(
    condition: LootCondition,
    inverted: LootCondition,
    twice: LootCondition,
    context: LootContext,
    random: R,
)
    requires
        inverted == LootCondition::Inverted(Box::new(condition)),
        twice == LootCondition::Inverted(Box::new(inverted)),
    ensures
        twice.outcome(context, random) == condition.outcome(context, random),
        inverted.outcome(context, random).1 == condition.outcome(context, random).1,
        condition.outcome(context, random).0 matches Err(error) ==> inverted.outcome(
            context,
            random,
        ).0 == Err::<bool, LootError>(error),
        condition.outcome(context, random).0 matches Ok(holds) ==> inverted.outcome(
            context,
            random,
        ).0 == Ok::<bool, LootError>(!holds),
{
}

/// Conditions are tested one after another, up to the first that does not hold: all of
/// two lists hold where those of the first do and then those of the second.
pub proof fn law_conditions_are_tested_in_turn<R: Random>(
    first: Seq<LootCondition>,
    second: Seq<LootCondition>,
    context: LootContext,
    random: R,
)
    ensures
        all_hold(first + second, context, random) == match all_hold(first, context, random) {
            (Ok(true), after) => all_hold(second, context, after),
            refused => refused,
        },
        first.len() == 1 ==> all_hold(first, context, random) == first[0].outcome(context, random),
        first.len() == 0 ==> all_hold(first, context, random) == (
            Ok::<bool, LootError>(true),
            random,
        ),
    decreases first.len(),
{
    if first.len() == 0 {
        assert(first + second =~= second);
    } else {
        assert((first + second)[0] == first[0]);
        assert((first + second).drop_first() =~= first.drop_first() + second);
        let tried = first[0].outcome(context, random);
        law_conditions_are_tested_in_turn(first.drop_first(), second, context, tried.1);
        if tried.0 is Ok {
            assert(tried.0->Ok_0 || !tried.0->Ok_0);
        }
    }
}

/// One of several conditions holds just where their opposites do not all hold.
pub proof fn law_one_holds_unless_all_opposites_do<R: Random>(
    conditions: Seq<LootCondition>,
    opposites: Seq<LootCondition>,
    context: LootContext,
    random: R,
)
    requires
        conditions.len() == opposites.len(),
        forall|i: int|
            0 <= i < conditions.len() ==> #[trigger] opposites[i] == LootCondition::Inverted(
                Box::new(conditions[i]),
            ),
    ensures
        any_holds(conditions, context, random).1 == all_hold(opposites, context, random).1,
        match all_hold(opposites, context, random).0 {
            Ok(all) => any_holds(conditions, context, random).0 == Ok::<bool, LootError>(!all),
            Err(error) => any_holds(conditions, context, random).0 == Err::<bool, LootError>(error),
        },
    decreases conditions.len(),
{
    if conditions.len() > 0 {
        let rest = conditions.drop_first();
        let opposite_rest = opposites.drop_first();
        assert(opposites[0] == LootCondition::Inverted(Box::new(conditions[0])));
        assert forall|i: int| 0 <= i < rest.len() implies #[trigger] opposite_rest[i]
            == LootCondition::Inverted(Box::new(rest[i])) by {
            assert(opposite_rest[i] == opposites[i + 1]);
            assert(rest[i] == conditions[i + 1]);
        }
        let tried = conditions[0].outcome(context, random);
        law_inverted_condition_is_the_opposite(
            conditions[0],
            opposites[0],
            LootCondition::Inverted(Box::new(opposites[0])),
            context,
            random,
        );
        let opposite = opposites[0].outcome(context, random);
        assert(match tried.0 {
            Ok(holds) => opposite.0 == Ok::<bool, LootError>(!holds),
            Err(error) => opposite.0 == Err::<bool, LootError>(error),
        });
        assert(opposite.1 == tried.1);
        law_one_holds_unless_all_opposites_do(rest, opposite_rest, context, tried.1);
    }
}

/// No chance never comes true and certainty always does; what comes true with one chance
/// does so with every greater one.
pub proof fn law_chance_grows<R: Random>(
    less: i64,
    more: i64,
    context: LootContext,
    random: R,
)
    requires
        random.valid(),
        less <= more,
    ensures
        ({
            let rare = LootCondition::RandomChance(less).outcome(context, random);
            let likely = LootCondition::RandomChance(more).outcome(context, random);
            &&& rare.0 is Ok && likely.0 is Ok
            &&& rare.1 == random.unit().1 && likely.1 == random.unit().1
            &&& rare.0->Ok_0 ==> likely.0->Ok_0
            &&& less <= 0 ==> !rare.0->Ok_0
            &&& more >= 0x100_0000 ==> likely.0->Ok_0
            &&& random.unit().0 == less ==> !rare.0->Ok_0
            &&& random.unit().0 == more - 1 ==> likely.0->Ok_0
        }),
{
    random.law_draws_stay_in_range(1);
}

/// An enchanted bonus is a plain chance: the one for no enchantment without it, and with
/// it the base at the first level and a step more with every further one.
pub proof fn law_enchanted_bonus_is_a_chance<R: Random>(
    enchantment: Identifier,
    unenchanted: i64,
    base: i64,
    step: i64,
    chance: i64,
    context: LootContext,
    random: R,
)
    requires
        chance == if context.tool_level(enchantment@) == 0 {
            unenchanted as int
        } else {
            base + (context.tool_level(enchantment@) - 1) * step
        },
        context.tool_level(enchantment@) >= 0,
    ensures
        (LootCondition::RandomChanceWithEnchantedBonus {
            enchantment,
            unenchanted_chance: unenchanted,
            enchanted_base: base,
            enchanted_per_level: step,
        }).outcome(context, random) == LootCondition::RandomChance(chance).outcome(context, random),
{
    let level = context.tool_level(enchantment@);
    assert((level - 1) * step == step * (level - 1)) by (nonlinear_arith);
}

/// A table of chances is read at the level of the enchantment, and at its end for levels
/// beyond it.
pub proof fn law_table_bonus_reads_its_level<R: Random>(
    enchantment: Identifier,
    chances: Vec<i64>,
    at: int,
    context: LootContext,
    random: R,
)
    requires
        0 <= at < chances@.len(),
        context.tool_level(enchantment@) == at || at == chances@.len() - 1 && context.tool_level(
            enchantment@,
        ) > at,
    ensures
        (LootCondition::TableBonus { enchantment, chances }).outcome(context, random)
            == LootCondition::RandomChance(chances@[at]).outcome(context, random),
{
}

/// A check of a value asks whether it lies between its bounds, both of them among it.
pub proof fn law_value_lies_between_its_bounds<R: Random>(
    value: int,
    min: i32,
    max: i32,
    tool: Option<Stack>,
    random: R,
)
    ensures
        ({
            let low = Some(NumberProvider::Constant((min * 0x100_0000) as i64));
            let high = Some(NumberProvider::Constant((max * 0x100_0000) as i64));
            let none = None::<NumberProvider>;
            let both = NumberProviderRange { min: low, max: high };
            let at_least = NumberProviderRange { min: low, max: none };
            let at_most = NumberProviderRange { min: none, max: high };
            let any = NumberProviderRange { min: none, max: none };
            &&& both.admits(value, tool, random) == (
                Ok::<bool, LootError>(min <= value <= max),
                random,
            )
            &&& at_least.admits(value, tool, random) == (
                Ok::<bool, LootError>(min <= value),
                random,
            )
            &&& at_most.admits(value, tool, random) == (
                Ok::<bool, LootError>(value <= max),
                random,
            )
            &&& any.admits(value, tool, random) == (Ok::<bool, LootError>(true), random)
        }),
{
    assert((min * 0x100_0000) as i64 == min * 0x100_0000);
    assert((max * 0x100_0000) as i64 == max * 0x100_0000);
}

/// A check of the time sees the time since the last whole period.
pub proof fn law_time_repeats_with_its_period(day_time: int, period: i64)
    requires
        period > 0,
    ensures
        0 <= checked_time(day_time, Some(period)) < period,
        checked_time(day_time + period, Some(period)) == checked_time(day_time, Some(period)),
        0 <= day_time < period ==> checked_time(day_time, Some(period)) == day_time,
        checked_time(day_time, None) == day_time,
{
    let size = period as int;
    assert(size > 0);
    vstd::arithmetic::div_mod::lemma_mod_add_multiples_vanish(day_time, size);
    vstd::arithmetic::div_mod::lemma_mod_bound(day_time, size);
    if 0 <= day_time < size {
        vstd::arithmetic::div_mod::lemma_small_mod(day_time as nat, size as nat);
    }
    assert(size + day_time == day_time + size);
}

/// A check of the weather that wants neither holds in any weather; one that wants rain
/// holds just where its opposite does not, and so for thunder.
pub proof fn law_weather_is_what_is_wanted<R: Random>(
    wanted: bool,
    context: LootContext,
    random: R,
)
    requires
        context.level is Some,
    ensures
        ({
            let level = context.level->Some_0;
            let rain = LootCondition::WeatherCheck { raining: Some(wanted), thundering: None };
            let thunder = LootCondition::WeatherCheck { raining: None, thundering: Some(wanted) };
            let any = LootCondition::WeatherCheck { raining: None, thundering: None };
            let calm = LootCondition::WeatherCheck { raining: Some(false), thundering: Some(false) };
            &&& any.outcome(context, random) == (Ok::<bool, LootError>(true), random)
            &&& rain.outcome(context, random).0 == Ok::<bool, LootError>(
                level.is_raining == wanted,
            )
            &&& thunder.outcome(context, random).0 == Ok::<bool, LootError>(
                level.is_thundering == wanted,
            )
            &&& calm.outcome(context, random).0 == Ok::<bool, LootError>(
                !(level.is_raining || level.is_thundering),
            )
        }),
{
}

/// A check of an entity looks at the one that has the part it names, and at no other.
pub proof fn law_entity_check_looks_at_its_part<R: Random>(
    condition: LootCondition,
    part: LootContextEntity,
    context: LootContext,
    other: LootContext,
    random: R,
)
    requires
        condition is EntityProperties,
        condition->EntityProperties_entity == part,
        part == LootContextEntity::This ==> context.this_entity == other.this_entity,
        part == LootContextEntity::Attacker ==> context.killer_entity == other.killer_entity,
        part == LootContextEntity::DirectAttacker ==> context.direct_killer_entity
            == other.direct_killer_entity,
    ensures
        condition.outcome(context, random) == condition.outcome(other, random),
        part == LootContextEntity::This && context.this_entity is None ==> condition.outcome(
            context,
            random,
        ).0 == Ok::<bool, LootError>(false),
        part == LootContextEntity::Attacker && context.killer_entity is None
            ==> condition.outcome(context, random).0 == Ok::<bool, LootError>(false),
        part == LootContextEntity::DirectAttacker && context.direct_killer_entity is None
            ==> condition.outcome(context, random).0 == Ok::<bool, LootError>(false),
{
}

/// A stack and the state after functions, where they did not fail, and their failure
/// otherwise, are those of the first of them and then of the others.
pub proof fn law_functions_are_applied_in_turn<R: Random, M: ExplorationMapResolver>(
    first: Seq<ConditionalLootFunction>,
    second: Seq<ConditionalLootFunction>,
    item: Stack,
    context: LootContext,
    state: Eval<R, M>,
)
    ensures
        applied_all(first + second, item, context, state) == match applied_all(
            first,
            item,
            context,
            state,
        ) {
            (Ok(()), item, after) => applied_all(second, item, context, after),
            failed => failed,
        },
    decreases first.len(),
{
    if first.len() == 0 {
        assert(first + second =~= second);
    } else {
        assert((first + second)[0] == first[0]);
        assert((first + second).drop_first() =~= first.drop_first() + second);
        match all_hold(first[0].conditions@, context, state.random) {
            (Ok(true), random) => {
                let own = first[0].function.applied(item, context, state.with_random(random));
                if own.0 is Ok {
                    law_functions_are_applied_in_turn(
                        first.drop_first(),
                        second,
                        own.1,
                        context,
                        own.2,
                    );
                }
            },
            (Ok(false), random) => {
                law_functions_are_applied_in_turn(
                    first.drop_first(),
                    second,
                    item,
                    context,
                    state.with_random(random),
                );
            },
            (Err(error), random) => {},
        }
    }
}

/// A function is applied just where its conditions hold; where they do not, the item
/// stays as it is.
pub proof fn law_function_needs_its_conditions<R: Random, M: ExplorationMapResolver>(
    function: ConditionalLootFunction,
    item: Stack,
    context: LootContext,
    state: Eval<R, M>,
)
    ensures
        ({
            let tried = all_hold(function.conditions@, context, state.random);
            let own = function.function.applied(item, context, state.with_random(tried.1));
            let applied = applied_all(seq![function], item, context, state);
            &&& tried.0 == Ok::<bool, LootError>(true) ==> applied == own
            &&& tried.0 == Ok::<bool, LootError>(false) ==> applied == (
                Ok::<(), LootError>(()),
                item,
                state.with_random(tried.1),
            )
            &&& tried.0 is Err ==> applied.0 is Err && applied.1 == item
        }),
{
    let functions = seq![function];
    let rest = functions.drop_first();
    assert(functions[0] == function);
    assert(rest.len() == 0);
    let tried = all_hold(function.conditions@, context, state.random);
    let own = function.function.applied(item, context, state.with_random(tried.1));
    if own.0 is Ok {
        assert(own.0->Ok_0 == ());
        assert(applied_all(rest, own.1, context, own.2) == (
            Ok::<(), LootError>(()),
            own.1,
            own.2,
        ));
    }
    assert(applied_all(rest, item, context, state.with_random(tried.1)) == (
        Ok::<(), LootError>(()),
        item,
        state.with_random(tried.1),
    ));
}

/// Setting a count makes it the number that was drawn, and adding makes it that much
/// more. Nothing else of the item changes.
pub proof fn law_count_is_set_or_added<R: Random, M: ExplorationMapResolver>(
    count: NumberProvider,
    item: Stack,
    context: LootContext,
    state: Eval<R, M>,
)
    requires
        count.integer(stack_of(context.tool), state.random).0 is Ok,
        ({
            let value = count.integer(stack_of(context.tool), state.random).0->Ok_0;
            i32::MIN <= value <= i32::MAX && i32::MIN <= item.count + value <= i32::MAX
        }),
    ensures
        ({
            let value = count.integer(stack_of(context.tool), state.random).0->Ok_0;
            let set = (LootFunction::SetCount { count, add: false }).applied(item, context, state);
            let more = (LootFunction::SetCount { count, add: true }).applied(item, context, state);
            &&& set.0 is Ok && more.0 is Ok
            &&& set.1.count == value
            &&& more.1.count - item.count == value
            &&& set.1 == (Stack { count: set.1.count, ..item })
            &&& more.1 == (Stack { count: more.1.count, ..item })
            &&& set.2 == more.2
        }),
{
}

/// A limited count lies between its limits wherever they leave room, stays as it is
/// where it did before, and is the nearer limit otherwise.
pub proof fn law_limited_count_keeps_its_limits<R: Random, M: ExplorationMapResolver>(
    min: Option<i32>,
    max: Option<i32>,
    item: Stack,
    context: LootContext,
    state: Eval<R, M>,
)
    requires
        min matches Some(low) ==> max matches Some(high) ==> low <= high,
    ensures
        ({
            let limited = (LootFunction::LimitCount { min, max }).applied(item, context, state);
            let count = limited.1.count;
            &&& limited.0 is Ok
            &&& limited.1 == (Stack { count, ..item })
            &&& limited.2 == state
            &&& min matches Some(low) ==> low <= count && (item.count < low ==> count == low)
            &&& max matches Some(high) ==> count <= high && (item.count > high ==> count == high)
            &&& (min matches Some(low) ==> low <= item.count) && (max matches Some(high)
                ==> item.count <= high) ==> count == item.count
        }),
{
}

/// Of the items of a stack that is near an explosion, some are lost and none are gained;
/// without an explosion all stay, and with no chance of survival but for the least draw
/// each survives only that.
pub proof fn law_explosion_takes_items_away<R: Random, M: ExplorationMapResolver>(
    item: Stack,
    context: LootContext,
    state: Eval<R, M>,
)
    requires
        state.random.valid(),
        item.count >= 0,
    ensures
        ({
            let after = LootFunction::ExplosionDecay.applied(item, context, state);
            &&& after.0 is Ok
            &&& after.1 == (Stack { count: after.1.count, ..item })
            &&& 0 <= after.1.count <= item.count
            &&& context.explosion_survival is None ==> after.1.count == item.count && after.2
                == state
            &&& context.explosion_survival matches Some(survival) ==> (survival >= 0x100_0000 - 1
                ==> after.1.count == item.count)
        }),
{
    if let Some(survival) = context.explosion_survival {
        law_trials_add_up(state.random, 0, item.count as nat, survival + 1);
        assert(successes(state.random, 0, survival + 1) == (0int, state.random));
    }
}

/// Ore drops are multiplied by what is drawn from the level and two more, and by one
/// where less is drawn: never by less than one nor by more than the level and one.
pub proof fn law_ore_drops_are_multiplied<R: Random>(count: i32, level: int, random: R)
    requires
        random.valid(),
        0 <= level <= 255,
        0 <= count <= 0x10_0000,
    ensures
        ({
            let (result, after) = BonusFormula::OreDrops.with_bonus(count, level, random);
            let drawn = random.bounded(level + 2);
            let times = if drawn.0 >= 1 {
                drawn.0
            } else {
                1
            };
            &&& level == 0 ==> result == count && after == random
            &&& level > 0 ==> result == times * count && after == drawn.1
            &&& level > 0 ==> count <= result <= (level + 1) * count
        }),
{
    if level > 0 {
        random.law_draws_stay_in_range(level + 2);
        let drawn = random.bounded(level + 2).0;
        let times = if drawn >= 1 {
            drawn
        } else {
            1
        };
        assert(times * count == count * times && count <= times * count <= (level + 1) * count
            && times * count <= 256 * count) by (nonlinear_arith)
            requires
                1 <= times <= level + 1 <= 256,
                count >= 0,
        ;
    }
}

/// A uniform bonus adds up to the multiplier for each level, every number as often as
/// another; a binomial one adds a success at most for each level and each extra trial.
pub proof fn law_bonus_is_bounded_by_the_level<R: Random>(
    multiplier: i32,
    extra: i32,
    probability: i64,
    count: i32,
    level: int,
    random: R,
)
    requires
        random.valid(),
        0 <= level <= 255,
        0 <= multiplier <= 0x1000,
        0 <= extra <= 0x1000,
        0 <= count <= 0x10_0000,
    ensures
        ({
            let uniform = BonusFormula::UniformBonusCount { bonus_multiplier: multiplier };
            let binomial = BonusFormula::BinomialWithBonusCount { extra, probability };
            let (even, after) = uniform.with_bonus(count, level, random);
            let (trials, _) = binomial.with_bonus(count, level, random);
            &&& level == 0 ==> even == count && after == random
            &&& level > 0 ==> even - count == random.bounded(multiplier * level + 1).0
            &&& count <= even <= count + multiplier * level
            &&& count <= trials <= count + level + extra
            &&& probability >= 0x100_0000 ==> trials == count + level + extra
            &&& probability <= 0 ==> trials == count
        }),
{
    assert(0 <= multiplier * level <= 0x1000 * 255) by (nonlinear_arith)
        requires
            0 <= multiplier <= 0x1000,
            0 <= level <= 255,
    ;
    if level > 0 {
        random.law_draws_stay_in_range(multiplier * level + 1);
    }
    law_trials_add_up(random, 0, (level + extra) as nat, probability as int);
    assert(successes(random, 0, probability as int) == (0int, random));
}

/// A set level lies between none and 255: the number that was provided where it does,
/// or that much more than the level there was.
pub proof fn law_set_level_stays_in_range(stack: Stack, enchantment: Identifier, provided: i32)
    requires
        -0x1000_0000 <= provided <= 0x1000_0000,
    ensures
        ({
            let set = level_to_set(stack, enchantment@, provided, false);
            let more = level_to_set(stack, enchantment@, provided, true);
            let before = level_of(stack, enchantment@);
            &&& 0 <= set <= 255
            &&& 0 <= more <= 255
            &&& 0 <= provided <= 255 ==> set == provided
            &&& 0 <= before + provided <= 255 ==> more - before == provided
            &&& provided < 0 ==> set == 0
            &&& provided > 255 ==> set == 255 && more == 255
        }),
{
}

/// A drawn stew effect lasts as long as was drawn: in ticks where it works at once, and
/// in seconds of 20 ticks otherwise. It comes behind the effects that a stew has.
pub proof fn law_stew_effect_lasts_as_drawn<R: Random, M: ExplorationMapResolver>(
    function: LootFunction,
    item: Stack,
    context: LootContext,
    state: Eval<R, M>,
)
    requires
        function is SetStewEffect,
        item.item == vanilla_id("suspicious_stew"@),
        0 < function->SetStewEffect_effects@.len() <= i32::MAX,
        ({
            let effects = function->SetStewEffect_effects@;
            let drawn = state.random.bounded(effects.len() as int);
            let lasts = effects[drawn.0].duration.integer(stack_of(context.tool), drawn.1);
            &&& find(context.registry.mob_effects@, effects[drawn.0].effect_type@) is Some
            &&& lasts.0 matches Ok(duration) && 0 <= duration <= 0x100_0000
        }),
    ensures
        ({
            let effects = function->SetStewEffect_effects@;
            let drawn = state.random.bounded(effects.len() as int);
            let effect = effects[drawn.0];
            let kind = find(context.registry.mob_effects@, effect.effect_type@)->Some_0;
            let lasts = effect.duration.integer(stack_of(context.tool), drawn.1);
            let ticks = lasts.0->Ok_0 * if kind.instantaneous {
                1int
            } else {
                20
            };
            let after = function.applied(item, context, state);
            &&& after.0 is Ok
            &&& after.2.random == lasts.1
            &&& after.1 == with_stew_effect(
                item,
                effect.effect_type@,
                ticks as i32,
            )
            &&& stew_effects(after.1).len() == stew_effects(item).len() + 1
        }),
{
}

/// A filtered function changes nothing of an item that its filter does not admit.
pub proof fn law_filter_keeps_other_items<R: Random, M: ExplorationMapResolver>(
    function: LootFunction,
    item: Stack,
    context: LootContext,
    state: Eval<R, M>,
)
    requires
        function is Filtered,
        !function->Filtered_item_filter.admits(item, context.registry.item_tags@),
    ensures
        function.applied(item, context, state) == (Ok::<(), LootError>(()), item, state),
{
}

/// The amplifier of an ominous bottle is the number that was drawn, but no less than
/// none and no more than four.
pub proof fn law_bottle_amplifier_is_limited<R: Random, M: ExplorationMapResolver>(
    amplifier: NumberProvider,
    item: Stack,
    context: LootContext,
    state: Eval<R, M>,
)
    requires
        amplifier.integer(stack_of(context.tool), state.random).0 is Ok,
    ensures
        ({
            let value = amplifier.integer(stack_of(context.tool), state.random).0->Ok_0;
            let after = (LootFunction::SetOminousBottleAmplifier { amplifier }).applied(
                item,
                context,
                state,
            );
            let set = number_of(
                after.1.component(vanilla_id("ominous_bottle_amplifier"@)),
                ComponentKind::OminousBottleAmplifier,
            );
            &&& after.0 is Ok
            &&& set is Some && 0 <= set->Some_0 <= 4
            &&& 0 <= value <= 4 ==> set->Some_0 == value
            &&& value > 4 ==> set->Some_0 == 4
            &&& value < 0 ==> set->Some_0 == 0
            &&& after.1.count == item.count
        }),
{
}

/// A discarded item leaves nothing.
pub proof fn law_discarded_item_is_gone<R: Random, M: ExplorationMapResolver>(
    item: Stack,
    context: LootContext,
    state: Eval<R, M>,
)
    ensures
        LootFunction::Discard.applied(item, context, state).0 is Ok,
        LootFunction::Discard.applied(item, context, state).1.is_empty(),
{
}

} // verus!
