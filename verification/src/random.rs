//! Random sources.
use vstd::prelude::*;

verus! {

/// The number of steps of a uniform draw in `[0, 1)`: such a draw is a multiple of
/// `1 / UNIT_STEPS`.
pub const UNIT_STEPS: u32 = 0x100_0000;

/// A deterministic source of random numbers. Its state before a draw fixes the
/// number drawn and the state after it.
pub trait Random: Sized {
    /// The states that the source can be in.
    spec fn valid(self) -> bool;

    /// A number in `0..bound`, and the state after it was drawn.
    spec fn bounded(self, bound: int) -> (int, Self);

    /// The numerator over `UNIT_STEPS` of a uniform number in `[0, 1)`, and the
    /// state after it was drawn.
    spec fn unit(self) -> (int, Self);

    /// A coin toss, and the state after it.
    spec fn coin(self) -> (bool, Self);

    /// A drawn number lies in its range, and draws keep the source valid.
    proof fn law_draws_stay_in_range(self, bound: int)
        requires
            self.valid(),
            0 < bound <= i32::MAX,
        ensures
            0 <= self.bounded(bound).0 < bound,
            self.bounded(bound).1.valid(),
            0 <= self.unit().0 < UNIT_STEPS,
            self.unit().1.valid(),
            self.coin().1.valid(),
    ;

    fn next_i32_bounded(&mut self, bound: i32) -> (value: i32)
        requires
            old(self).valid(),
            bound > 0,
        ensures
            final(self).valid(),
            0 <= value < bound,
            (value as int, *final(self)) == old(self).bounded(bound as int),
    ;

    /// A uniform number in `[0, 1)` as a multiple of `1 / UNIT_STEPS`.
    fn next_unit(&mut self) -> (numerator: u32)
        requires
            old(self).valid(),
        ensures
            final(self).valid(),
            numerator < UNIT_STEPS,
            (numerator as int, *final(self)) == old(self).unit(),
    ;

    fn next_bool(&mut self) -> (value: bool)
        requires
            old(self).valid(),
        ensures
            final(self).valid(),
            (value, *final(self)) == old(self).coin(),
    ;
}

/// A number in `min..=max`, and the state after it was drawn.
pub open spec fn between<R: Random>(random: R, min: int, max: int) -> (int, R) {
    let drawn = random.bounded(max - min + 1);
    (min + drawn.0, drawn.1)
}

/// Draws a number in `min..=max`.
pub fn next_i32_between<R: Random>(random: &mut R, min: i32, max: i32) -> (value: i32)
    requires
        old(random).valid(),
        min <= max,
        max - min < i32::MAX,
    ensures
        final(random).valid(),
        min <= value <= max,
        (value as int, *final(random)) == between(*old(random), min as int, max as int),
{
    random.next_i32_bounded(max - min + 1) + min
}

/// Whether `value` is a power of two.
fn power_of_two(value: i32) -> (is_power: bool)
    requires
        value > 0,
    ensures
        is_power == vstd::arithmetic::power2::is_pow2(value as int),
{
    proof {
        reveal(vstd::arithmetic::power2::is_pow2);
    }
    let mut rest: i32 = value;
    while rest % 2 == 0
        invariant
            rest > 0,
            vstd::arithmetic::power2::is_pow2(rest as int) == vstd::arithmetic::power2::is_pow2(
                value as int,
            ),
        decreases rest,
    {
        proof {
            reveal(vstd::arithmetic::power2::is_pow2);
        }
        rest = rest / 2;
    }
    rest == 1
}

/// The modulus of the linear congruential generator; also its period.
pub const LEGACY_MODULUS: u64 = 0x1_0000_0000_0000;

/// The multiplier of the linear congruential generator.
pub const LEGACY_MULTIPLIER: u64 = 0x5_DEEC_E66D;

/// The 48-bit linear congruential generator of the legacy world generator.
#[derive(Debug, Clone, Copy, PartialEq, Eq, Structural)]
pub struct LegacyRandom {
    pub seed: u64,
}

impl LegacyRandom {
    /// The state after one step.
    pub open spec fn stepped(self) -> LegacyRandom {
        LegacyRandom {
            seed: ((self.seed * LEGACY_MULTIPLIER + 11) % (LEGACY_MODULUS as int)) as u64,
        }
    }

    /// The top 31 bits of the state after one step.
    pub open spec fn draw31(self) -> int {
        self.stepped().seed as int / 0x2_0000
    }

    /// The first of at most `tries` draws that every remainder has an equal share
    /// in, reduced modulo `bound`, and the state after it.
    pub open spec fn fair_remainder(self, bound: int, tries: nat) -> (int, LegacyRandom)
        decreases tries,
    {
        let draw = self.draw31();
        if tries > 0 && draw - draw % bound + (bound - 1) > i32::MAX {
            self.stepped().fair_remainder(bound, (tries - 1) as nat)
        } else {
            (draw % bound, self.stepped())
        }
    }

    proof fn lemma_fair_remainder(self, bound: int, tries: nat)
        requires
            bound > 0,
        ensures
            0 <= self.fair_remainder(bound, tries).0 < bound,
            self.fair_remainder(bound, tries).1.valid(),
        decreases tries,
    {
        if tries > 0 {
            self.stepped().lemma_fair_remainder(bound, (tries - 1) as nat);
        }
    }

    /// The source for a seed.
    pub fn from_seed(seed: u64) -> (random: Self)
        ensures
            random.valid(),
            random.seed == (seed ^ LEGACY_MULTIPLIER) % LEGACY_MODULUS,
    {
        LegacyRandom { seed: (seed ^ LEGACY_MULTIPLIER) % LEGACY_MODULUS }
    }

    fn step(&mut self)
        ensures
            *final(self) == old(self).stepped(),
            final(self).valid(),
    {
        let seed: u64 = self.seed;
        assert(seed * LEGACY_MULTIPLIER <= u64::MAX * LEGACY_MULTIPLIER) by (nonlinear_arith)
            requires
                seed <= u64::MAX,
        ;
        let product: u128 = self.seed as u128 * LEGACY_MULTIPLIER as u128 + 11;
        self.seed = (product % LEGACY_MODULUS as u128) as u64;
    }

    /// Draws any 32-bit number.
    pub fn next_i32(&mut self) -> (value: i32)
        ensures
            final(self).valid(),
            *final(self) == old(self).stepped(),
            value as u32 == final(self).seed / 0x1_0000u64,
    {
        self.step();
        let bits: u32 = (self.seed / 0x1_0000) as u32;
        let value: i32 = bits as i32;
        assert(value as u32 == bits) by (bit_vector)
            requires
                value == bits as i32,
        ;
        value
    }
}

impl Random for LegacyRandom {
    open spec fn valid(self) -> bool {
        self.seed < LEGACY_MODULUS
    }

    open spec fn bounded(self, bound: int) -> (int, Self) {
        if vstd::arithmetic::power2::is_pow2(bound) {
            (bound * self.draw31() / 0x8000_0000, self.stepped())
        } else {
            self.fair_remainder(bound, LEGACY_MODULUS as nat)
        }
    }

    open spec fn unit(self) -> (int, Self) {
        (self.stepped().seed as int / 0x100_0000, self.stepped())
    }

    open spec fn coin(self) -> (bool, Self) {
        (self.stepped().seed >= 0x8000_0000_0000, self.stepped())
    }

    proof fn law_draws_stay_in_range(self, bound: int) {
        let draw = self.draw31();
        assert(0 <= bound * draw / 0x8000_0000 < bound) by (nonlinear_arith)
            requires
                bound > 0,
                0 <= draw < 0x8000_0000,
        ;
        self.lemma_fair_remainder(bound, LEGACY_MODULUS as nat);
    }

    fn next_i32_bounded(&mut self, bound: i32) -> (value: i32) {
        if power_of_two(bound) {
            self.step();
            let draw: u64 = self.seed / 0x2_0000;
            assert(0 <= bound * draw <= i32::MAX * 0x8000_0000 && bound * draw / 0x8000_0000
                < bound) by (nonlinear_arith)
                requires
                    bound > 0,
                    0 <= draw < 0x8000_0000,
            ;
            let product: u64 = bound as u64 * draw;
            return (product / 0x8000_0000) as i32;
        }
        let mut tries: u64 = LEGACY_MODULUS;
        loop
            invariant
                self.valid(),
                bound > 0,
                self.fair_remainder(bound as int, tries as nat) == old(self).bounded(bound as int),
            decreases tries,
        {
            self.step();
            let draw: i64 = (self.seed / 0x2_0000) as i64;
            let rest: i64 = draw % bound as i64;
            if tries > 0 && draw - rest + (bound as i64 - 1) > i32::MAX as i64 {
                tries = tries - 1;
            } else {
                return rest as i32;
            }
        }
    }

    fn next_unit(&mut self) -> (numerator: u32) {
        self.step();
        (self.seed / 0x100_0000) as u32
    }

    fn next_bool(&mut self) -> (value: bool) {
        self.step();
        self.seed >= 0x8000_0000_0000
    }
}

/// All draws from one state take the same bits, the highest first: a number below two is
/// a coin, a number below 0x100_0000 is a uniform number, and a coin falls on its upper
/// half.
pub proof fn law_draws_take_the_highest_bits(random: LegacyRandom)
    requires
        random.valid(),
    ensures
        random.bounded(2).0 == 1 <==> random.coin().0,
        random.bounded(2).0 == 0 <==> !random.coin().0,
        random.bounded(0x100_0000).0 == random.unit().0,
        random.coin().0 <==> random.unit().0 >= 0x80_0000,
        random.bounded(2).1 == random.coin().1,
        random.bounded(0x100_0000).1 == random.unit().1,
{
    lemma_doublings_are_powers(1);
    lemma_doublings_are_powers(24);
    lemma_highest_bits(random.stepped().seed as int);
}

proof fn lemma_highest_bits(seed: int)
    requires
        0 <= seed < 0x1_0000_0000_0000,
    ensures
        2 * (seed / 0x2_0000) / 0x8000_0000 == seed / 0x8000_0000_0000,
        0x100_0000 * (seed / 0x2_0000) / 0x8000_0000 == seed / 0x100_0000,
        seed >= 0x8000_0000_0000 <==> seed / 0x8000_0000_0000 == 1,
        seed >= 0x8000_0000_0000 <==> seed / 0x100_0000 >= 0x80_0000,
{
}

/// Doubling one gives powers of two.
pub open spec fn doubled(times: nat) -> int
    decreases times,
{
    if times == 0 {
        1
    } else {
        2 * doubled((times - 1) as nat)
    }
}

proof fn lemma_doublings_are_powers(times: nat)
    ensures
        vstd::arithmetic::power2::is_pow2(doubled(times)),
        doubled(times) >= 1,
        times == 1 ==> doubled(times) == 2,
        times == 24 ==> doubled(times) == 0x100_0000,
    decreases times,
{
    reveal(vstd::arithmetic::power2::is_pow2);
    if times > 0 {
        lemma_doublings_are_powers((times - 1) as nat);
        assert((2 * doubled((times - 1) as nat)) / 2 == doubled((times - 1) as nat));
    }
    if times == 1 {
        reveal_with_fuel(doubled, 2);
    }
    if times == 24 {
        reveal_with_fuel(doubled, 25);
    }
}

/// A number below a bound that is no power of two is the remainder of a draw, where the
/// draw lies below the greatest multiple of the bound that all draws reach; the other
/// draws are made again. So each remainder has as many draws as another.
pub proof fn law_remainders_have_equal_shares(random: LegacyRandom, bound: int, tries: nat)
    requires
        0 < bound <= i32::MAX,
        tries > 0,
    ensures
        ({
            let draw = random.draw31();
            let fair = (0x8000_0000int / bound) * bound;
            &&& draw < fair ==> random.fair_remainder(bound, tries) == (
                draw % bound,
                random.stepped(),
            )
            &&& draw >= fair ==> random.fair_remainder(bound, tries)
                == random.stepped().fair_remainder(bound, (tries - 1) as nat)
        }),
{
    let draw = random.draw31();
    let count = 0x8000_0000int / bound;
    let fair = count * bound;
    let own = draw / bound;
    assert(fair <= 0x8000_0000 < fair + bound) by (nonlinear_arith)
        requires
            bound > 0,
            count == 0x8000_0000int / bound,
            fair == count * bound,
    ;
    assert(draw - draw % bound == own * bound) by (nonlinear_arith)
        requires
            bound > 0,
            own == draw / bound,
    ;
    assert(own * bound <= draw < own * bound + bound) by (nonlinear_arith)
        requires
            bound > 0,
            own == draw / bound,
    ;
    if draw < fair {
        assert(own * bound + bound <= fair) by (nonlinear_arith)
            requires
                own * bound <= draw,
                draw < count * bound,
                fair == count * bound,
                bound > 0,
        ;
    } else {
        assert(own * bound >= fair) by (nonlinear_arith)
            requires
                draw >= count * bound,
                draw < own * bound + bound,
                fair == count * bound,
                bound > 0,
        ;
    }
}

} // verus!
