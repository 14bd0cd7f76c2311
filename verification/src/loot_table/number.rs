//! Numbers of loot tables. A fractional number is held by its numerator over
//! `UNIT_STEPS`, the grid that uniform draws lie on.
use vstd::prelude::*;

use crate::ident::Identifier;
use crate::item_stack::{ItemStack, Stack};
use crate::loot_table::enchanting::level_on;
use crate::loot_table::error::{LootError, LootResult};
use crate::random::{between, next_i32_between, Random, UNIT_STEPS};

verus! {

/// A source of numbers.
#[derive(Debug)]
pub enum NumberProvider {
    Constant(i64),
    Uniform { min: i64, max: i64 },
    /// The number of successes of `n` trials with probability `p`.
    Binomial { n: i32, p: i64 },
    /// A number that grows with the level of an enchantment on the tool.
    EnchantmentLevel { enchantment: Identifier, base: i64, per_level: i64 },
    Score { target: Identifier },
    Storage { storage: Identifier },
}

/// Bounds of a number; an absent bound admits everything.
#[derive(Debug)]
pub struct NumberProviderRange {
    pub min: Option<NumberProvider>,
    pub max: Option<NumberProvider>,
}

/// The nearest integer to a number; halves go up, and what does not fit goes to
/// the nearest end of the range.
pub open spec fn rounded(value: int) -> int {
    let nearest = (value + UNIT_STEPS / 2) / (UNIT_STEPS as int);
    if nearest < i32::MIN {
        i32::MIN as int
    } else if nearest > i32::MAX {
        i32::MAX as int
    } else {
        nearest
    }
}

/// The number of successes of `trials` draws that have to lie below `p`, and the
/// state after them.
pub open spec fn successes<R: Random>(random: R, trials: int, p: int) -> (int, R)
    decreases trials,
{
    if trials <= 0 {
        (0, random)
    } else {
        let before = successes(random, trials - 1, p);
        let drawn = before.1.unit();
        (before.0 + (if drawn.0 < p { 1int } else { 0 }), drawn.1)
    }
}

impl NumberProvider {
    /// The width of a range of integers can be drawn from.
    pub open spec fn sound(self) -> bool {
        match self {
            NumberProvider::Uniform { min, max } => rounded(max as int) - rounded(min as int)
                < i32::MAX,
            _ => true,
        }
    }

    /// The number at a tool's level of the enchantment.
    pub open spec fn at_level(base: int, per_level: int, level: int) -> int {
        base + per_level * (level - 1)
    }

    /// The number provided, as a numerator over `UNIT_STEPS`, and the state after it.
    pub open spec fn number<R: Random>(self, tool: Option<Stack>, random: R) -> (
        LootResult<int>,
        R,
    ) {
        match self {
            NumberProvider::Constant(value) => (Ok(value as int), random),
            NumberProvider::Uniform { min, max } => if min >= max {
                (Ok(min as int), random)
            } else {
                let drawn = random.unit();
                (Ok(min + drawn.0 * (max - min) / (UNIT_STEPS as int)), drawn.1)
            },
            NumberProvider::Binomial { n, p } => {
                let drawn = successes(random, n as int, p as int);
                (Ok(drawn.0 * UNIT_STEPS), drawn.1)
            },
            NumberProvider::EnchantmentLevel { enchantment, base, per_level } => (
                Ok(
                    NumberProvider::at_level(
                        base as int,
                        per_level as int,
                        level_on(tool, enchantment@),
                    ),
                ),
                random,
            ),
            NumberProvider::Score { .. } => (
                Err(LootError::UnsupportedNumberProvider("score")),
                random,
            ),
            NumberProvider::Storage { .. } => (
                Err(LootError::UnsupportedNumberProvider("storage")),
                random,
            ),
        }
    }

    /// The integer provided, and the state after it.
    pub open spec fn integer<R: Random>(self, tool: Option<Stack>, random: R) -> (
        LootResult<int>,
        R,
    ) {
        match self {
            NumberProvider::Uniform { min, max } => {
                let low = rounded(min as int);
                let high = rounded(max as int);
                if low >= high {
                    (Ok(low), random)
                } else {
                    let drawn = between(random, low, high);
                    (Ok(drawn.0), drawn.1)
                }
            },
            _ => match self.number(tool, random) {
                (Ok(value), after) => (Ok(rounded(value)), after),
                (Err(error), after) => (Err(error), after),
            },
        }
    }
}

/// The nearest integer to a number.
pub fn round(value: i128) -> (nearest: i32)
    requires
        value < 0x4000_0000_0000_0000_0000_0000_0000_0000,
    ensures
        nearest == rounded(value as int),
{
    let shifted: i128 = value + UNIT_STEPS as i128 / 2;
    let mut quotient: i128 = shifted / UNIT_STEPS as i128;
    if shifted < 0 && quotient * UNIT_STEPS as i128 != shifted {
        quotient = quotient - 1;
    }
    assert(quotient == shifted as int / (UNIT_STEPS as int));
    if quotient < i32::MIN as i128 {
        i32::MIN
    } else if quotient > i32::MAX as i128 {
        i32::MAX
    } else {
        quotient as i32
    }
}

/// The stack that an optional reference points to.
pub open spec fn stack_of(stack: Option<&ItemStack>) -> Option<Stack> {
    match stack {
        Some(stack) => Some(stack@),
        None => None,
    }
}

/// Numbers of loot tables stay far inside this range.
pub open spec fn in_range(value: int) -> bool {
    -0x8000_0000_0000_0000_0000_0000 < value < 0x8000_0000_0000_0000_0000_0000
}

/// Counts the draws that lie below `p`.
pub fn count_successes<R: Random>(random: &mut R, trials: i32, p: i64) -> (count: i32)
    requires
        old(random).valid(),
    ensures
        final(random).valid(),
        (count as int, *final(random)) == successes(*old(random), trials as int, p as int),
        0 <= count,
        count <= trials || count == 0,
{
    let mut count: i32 = 0;
    let mut done: i32 = 0;
    while done < trials
        invariant
            random.valid(),
            0 <= done,
            done <= trials || done == 0,
            0 <= count <= done,
            (count as int, *random) == successes(*old(random), done as int, p as int),
        decreases trials - done,
    {
        if (random.next_unit() as i64) < p {
            count = count + 1;
        }
        done = done + 1;
    }
    count
}

impl NumberProvider {
    /// The number provided, as a numerator over `UNIT_STEPS`.
    pub fn get<R: Random>(&self, tool: Option<&ItemStack>, random: &mut R) -> (value: LootResult<
        i128,
    >)
        requires
            old(random).valid(),
        ensures
            final(random).valid(),
            *final(random) == self.number(stack_of(tool), *old(random)).1,
            match (value, self.number(stack_of(tool), *old(random)).0) {
                (Ok(value), Ok(number)) => value == number && in_range(number),
                (Err(error), Err(expected)) => error == expected,
                _ => false,
            },
    {
        match self {
            NumberProvider::Constant(value) => Ok(*value as i128),
            NumberProvider::Uniform { min, max } => {
                if *min >= *max {
                    return Ok(*min as i128);
                }
                let drawn: i128 = random.next_unit() as i128;
                let width: i128 = *max as i128 - *min as i128;
                assert(0 <= drawn * width <= 0x100_0000 * width) by (nonlinear_arith)
                    requires
                        0 <= drawn < 0x100_0000,
                        width >= 0,
                ;
                Ok(*min as i128 + drawn * width / UNIT_STEPS as i128)
            },
            NumberProvider::Binomial { n, p } => {
                let count: i32 = count_successes(random, *n, *p);
                assert(0 <= count * 0x100_0000 <= 0x8000_0000 * 0x100_0000);
                Ok(count as i128 * UNIT_STEPS as i128)
            },
            NumberProvider::EnchantmentLevel { enchantment, base, per_level } => {
                let level: i32 = match tool {
                    Some(tool) => tool.get_enchantment_level(enchantment),
                    None => 0,
                };
                let growth: i64 = *per_level;
                assert(-0x8000_0000_0000_0000 * 255 <= growth * (level - 1)
                    <= 0x8000_0000_0000_0000 * 255) by (nonlinear_arith)
                    requires
                        -0x8000_0000_0000_0000 <= growth < 0x8000_0000_0000_0000,
                        0 <= level <= 255,
                ;
                Ok(*base as i128 + growth as i128 * (level as i128 - 1))
            },
            NumberProvider::Score { .. } => Err(LootError::UnsupportedNumberProvider("score")),
            NumberProvider::Storage { .. } => Err(LootError::UnsupportedNumberProvider("storage")),
        }
    }

    /// The integer provided.
    pub fn get_int<R: Random>(&self, tool: Option<&ItemStack>, random: &mut R) -> (value:
        LootResult<i32>)
        requires
            self.sound(),
            old(random).valid(),
        ensures
            final(random).valid(),
            *final(random) == self.integer(stack_of(tool), *old(random)).1,
            match (value, self.integer(stack_of(tool), *old(random)).0) {
                (Ok(value), Ok(number)) => value == number,
                (Err(error), Err(expected)) => error == expected,
                _ => false,
            },
    {
        match self {
            NumberProvider::Uniform { min, max } => {
                let low: i32 = round(*min as i128);
                let high: i32 = round(*max as i128);
                if low >= high {
                    Ok(low)
                } else {
                    Ok(next_i32_between(random, low, high))
                }
            },
            _ => match self.get(tool, random) {
                Ok(value) => Ok(round(value)),
                Err(error) => Err(error),
            },
        }
    }
}

/// A number is rounded to an integer no more than a half away from it, and to the upper
/// one of two that are equally near.
pub proof fn law_rounding_is_to_the_nearest(value: int)
    requires
        -0x8000_0000 * 0x100_0000 <= value < 0x7fff_ffff * 0x100_0000,
    ensures
        rounded(value) * 0x100_0000 - 0x80_0000 <= value < rounded(value) * 0x100_0000 + 0x80_0000,
{
}

/// A uniform integer is drawn from those between the rounded bounds, both of them among
/// it: as many numbers are drawn from as there are such integers. Nothing is drawn where
/// there is only one.
pub proof fn law_uniform_integer_lies_between_its_bounds<R: Random>(
    min: i64,
    max: i64,
    tool: Option<Stack>,
    random: R,
)
    requires
        random.valid(),
        (NumberProvider::Uniform { min, max }).sound(),
    ensures
        ({
            let low = rounded(min as int);
            let high = rounded(max as int);
            let drawn = (NumberProvider::Uniform { min, max }).integer(tool, random);
            &&& drawn.0 is Ok
            &&& low <= high ==> low <= drawn.0->Ok_0 <= high
            &&& low < high ==> {
                let count = high - low + 1;
                drawn.1 == random.bounded(count).1 && drawn.0->Ok_0 - low == random.bounded(count).0
            }
            &&& low >= high ==> drawn.0->Ok_0 == low && drawn.1 == random
        }),
{
    let low = rounded(min as int);
    let high = rounded(max as int);
    if low < high {
        random.law_draws_stay_in_range(high - low + 1);
    }
}

/// A uniform number lies between its bounds, below the upper one, and grows with the
/// draw: from the lower bound at the least one, through the middle at the middle one.
pub proof fn law_uniform_number_lies_between_its_bounds<R: Random>(
    min: i64,
    max: i64,
    tool: Option<Stack>,
    random: R,
)
    requires
        random.valid(),
        min < max,
    ensures
        ({
            let drawn = (NumberProvider::Uniform { min, max }).number(tool, random);
            let at = random.unit().0;
            &&& drawn.0 is Ok
            &&& min <= drawn.0->Ok_0 < max
            &&& drawn.1 == random.unit().1
            &&& (drawn.0->Ok_0 - min) * 0x100_0000 <= at * (max - min) < (drawn.0->Ok_0 - min + 1)
                * 0x100_0000
        }),
{
    random.law_draws_stay_in_range(1);
    let at = random.unit().0;
    let width = max - min;
    assert(0 <= at * width && at * width < 0x100_0000 * width) by (nonlinear_arith)
        requires
            0 <= at < 0x100_0000,
            width > 0,
    ;
}

/// The successes of some trials and of further ones are those of all of them together;
/// there are none with no chance, and as many as trials with certainty.
pub proof fn law_trials_add_up<R: Random>(random: R, first: nat, second: nat, p: int)
    requires
        random.valid(),
    ensures
        ({
            let before = successes(random, first as int, p);
            let after = successes(before.1, second as int, p);
            &&& successes(random, (first + second) as int, p) == (before.0 + after.0, after.1)
            &&& 0 <= after.0 <= second
            &&& p <= 0 ==> after.0 == 0
            &&& p >= 0x100_0000 ==> after.0 == second
            &&& before.1.valid()
            &&& after.1.valid()
        }),
    decreases second,
{
    let before = successes(random, first as int, p);
    lemma_trials_keep_validity(random, first, p);
    lemma_trials_keep_validity(before.1, second, p);
    if second > 0 {
        law_trials_add_up(random, first, (second - 1) as nat, p);
        lemma_trials_keep_validity(before.1, (second - 1) as nat, p);
        successes(before.1, second - 1, p).1.law_draws_stay_in_range(1);
    }
}

proof fn lemma_trials_keep_validity<R: Random>(random: R, trials: nat, p: int)
    requires
        random.valid(),
    ensures
        successes(random, trials as int, p).1.valid(),
    decreases trials,
{
    if trials > 0 {
        lemma_trials_keep_validity(random, (trials - 1) as nat, p);
        successes(random, trials - 1, p).1.law_draws_stay_in_range(1);
    }
}

/// A number that grows with the level of an enchantment is its base at the first level,
/// and grows by the same amount with every further one.
pub proof fn law_number_grows_with_the_level<R: Random>(
    enchantment: Identifier,
    base: i64,
    per_level: i64,
    tool: Option<Stack>,
    higher: Option<Stack>,
    random: R,
)
    requires
        level_on(higher, enchantment@) == level_on(tool, enchantment@) + 1,
    ensures
        ({
            let provider = NumberProvider::EnchantmentLevel { enchantment, base, per_level };
            let now = provider.number(tool, random).0;
            let then = provider.number(higher, random).0;
            &&& now is Ok && then is Ok
            &&& then->Ok_0 == now->Ok_0 + per_level
            &&& level_on(tool, enchantment@) == 1 ==> now->Ok_0 == base
        }),
{
    let level = level_on(tool, enchantment@);
    assert(per_level * (level + 1 - 1) == per_level * (level - 1) + per_level) by (nonlinear_arith);
    assert(per_level * (1 - 1) == 0) by (nonlinear_arith);
}

} // verus!
