//! Barrels, chests and furnaces: what they do when they are viewed, ticked or removed.
use vstd::prelude::*;

use crate::block_entity::base_container::{empty_slots, Storage};
use crate::block_entity::container_openers_counter::{ContainerOpenersCounter, Openers};
use crate::block_entity::fuel_values::FuelValues;
use crate::block_entity::furnace::{
    empty_furnace, uses_of, Furnace, FurnaceContainer, FurnaceTickResult, FURNACE_SLOTS,
};
use crate::block_entity::randomizable_container::{Randomizable, RandomizableContainer};
use crate::ident::{Id, Identifier};
use crate::item_stack::{stacks_of, ItemStack, Stack};
use crate::nbt::NbtTag;
use crate::registry::Registry;

verus! {

/// Number of slots in a barrel (3 rows of 9).
pub const BARREL_SLOTS: usize = 27;

/// Number of slots in one standard chest half.
pub const CHEST_SLOTS: usize = 27;

/// A direction along an axis.
#[derive(Clone, Copy, Debug, PartialEq, Eq, Structural)]
pub enum Direction {
    Down,
    Up,
    North,
    South,
    West,
    East,
}

impl Direction {
    /// The step in this direction.
    pub open spec fn step(self) -> (int, int, int) {
        match self {
            Direction::Down => (0, -1, 0),
            Direction::Up => (0, 1, 0),
            Direction::North => (0, 0, -1),
            Direction::South => (0, 0, 1),
            Direction::West => (-1, 0, 0),
            Direction::East => (1, 0, 0),
        }
    }

    /// The direction the other way.
    pub open spec fn reverse(self) -> Direction {
        match self {
            Direction::Down => Direction::Up,
            Direction::Up => Direction::Down,
            Direction::North => Direction::South,
            Direction::South => Direction::North,
            Direction::West => Direction::East,
            Direction::East => Direction::West,
        }
    }

    pub fn offset(&self) -> (offset: (i32, i32, i32))
        ensures
            offset.0 == self.step().0,
            offset.1 == self.step().1,
            offset.2 == self.step().2,
    {
        match self {
            Direction::Down => (0, -1, 0),
            Direction::Up => (0, 1, 0),
            Direction::North => (0, 0, -1),
            Direction::South => (0, 0, 1),
            Direction::West => (-1, 0, 0),
            Direction::East => (1, 0, 0),
        }
    }

    pub fn opposite(&self) -> (opposite: Direction)
        ensures
            opposite == self.reverse(),
    {
        match self {
            Direction::Down => Direction::Up,
            Direction::Up => Direction::Down,
            Direction::North => Direction::South,
            Direction::South => Direction::North,
            Direction::West => Direction::East,
            Direction::East => Direction::West,
        }
    }
}

/// A place in the world in half blocks.
#[derive(Clone, Copy, Debug, PartialEq, Eq, Structural)]
pub struct HalfBlockPos {
    pub x: i64,
    pub y: i64,
    pub z: i64,
}

/// The place half a block away from a block's center, in some direction.
pub open spec fn beside_center(pos: (i32, i32, i32), step: (int, int, int)) -> HalfBlockPos {
    HalfBlockPos {
        x: (2 * pos.0 + 1 + step.0) as i64,
        y: (2 * pos.1 + 1 + step.1) as i64,
        z: (2 * pos.2 + 1 + step.2) as i64,
    }
}

/// The place half a block away from a block's center.
fn beside(pos: (i32, i32, i32), x: i32, y: i32, z: i32) -> (place: HalfBlockPos)
    requires
        -1 <= x <= 1,
        -1 <= y <= 1,
        -1 <= z <= 1,
    ensures
        place == beside_center(pos, (x as int, y as int, z as int)),
{
    HalfBlockPos {
        x: 2 * (pos.0 as i64) + 1 + x as i64,
        y: 2 * (pos.1 as i64) + 1 + y as i64,
        z: 2 * (pos.2 as i64) + 1 + z as i64,
    }
}

/// A container that is new in the world.
pub open spec fn fresh_container(size: nat) -> Randomizable {
    Randomizable {
        base: Storage { items: empty_slots(size), custom_name: None, lock: None },
        loot_table: None,
        seed: 0,
        pending: None,
        running: None,
        next_token: 0,
        removed: false,
    }
}

/// The items that fall out of a container that is removed: none while its loot is
/// still to come.
pub open spec fn spilled(state: Randomizable) -> Seq<Stack> {
    if state.loot_table is Some || state.pending is Some {
        Seq::empty()
    } else {
        state.base.items
    }
}

/// A container that was removed. Its slots stay, for the menus that still show them.
pub open spec fn removed_state(state: Randomizable) -> Randomizable {
    if state.loot_table is Some || state.pending is Some {
        Randomizable { removed: true, ..state }
    } else {
        Randomizable {
            base: Storage { items: empty_slots(state.base.items.len()), ..state.base },
            removed: true,
            ..state
        }
    }
}

/// Removes a container. Returns the items that fall out into the world, if there is
/// one.
fn spill(container: &mut RandomizableContainer, has_world: bool) -> (items: Vec<ItemStack>)
    ensures
        final(container)@ == removed_state(old(container)@),
        stacks_of(items@) == if has_world {
            spilled(old(container)@)
        } else {
            Seq::<Stack>::empty()
        },
{
    let items = container.remove_and_take_ready_items();
    assert(container@ =~= removed_state(old(container)@));
    assert(stacks_of(items@) =~= spilled(old(container)@));
    if has_world {
        items
    } else {
        let none: Vec<ItemStack> = Vec::new();
        assert(stacks_of(none@) =~= Seq::<Stack>::empty());
        none
    }
}

/// What a barrel does when its viewers come or go: it sounds, and its lid moves.
#[derive(Clone, Copy, Debug, PartialEq, Eq, Structural)]
pub struct BarrelReaction {
    pub open: bool,
    pub sound_at: HalfBlockPos,
}

/// A barrel's inventory and viewers.
#[derive(Debug)]
pub struct BarrelBlockEntity {
    pub container: RandomizableContainer,
    pub openers: ContainerOpenersCounter,
}

impl BarrelBlockEntity {
    /// Creates a new barrel block entity.
    pub fn new() -> (barrel: Self)
        ensures
            barrel.container@ == fresh_container(BARREL_SLOTS as nat),
            barrel.openers@ == (Openers { count: 0, max_range: 0 }),
    {
        BarrelBlockEntity {
            container: RandomizableContainer::new(BARREL_SLOTS),
            openers: ContainerOpenersCounter::default(),
        }
    }

    /// Returns the menu title, preferring a persisted custom name.
    pub fn display_name(&self, default: NbtTag) -> (name: NbtTag)
        ensures
            name@ == match self.container@.base.custom_name {
                Some(name) => name,
                None => default@,
            },
    {
        self.container.display_name(default)
    }

    /// Returns whether a player may open this barrel.
    pub fn can_open(&self, is_spectator: bool, key_fits: bool) -> (open: bool)
        ensures
            open == ((self.container@.loot_table is None || !is_spectator) && (is_spectator
                || self.container@.base.lock is None || key_fits)),
    {
        self.container.can_open(is_spectator, key_fits)
    }

    /// What the barrel does when the first viewer comes or the last one goes.
    pub fn react(pos: (i32, i32, i32), facing: Direction, open: bool) -> (reaction: BarrelReaction)
        ensures
            reaction == (BarrelReaction { open, sound_at: beside_center(pos, facing.step()) }),
    {
        let (x, y, z) = facing.offset();
        BarrelReaction { open, sound_at: beside(pos, x, y, z) }
    }

    /// Removes the barrel. Returns the items that fall out.
    pub fn pre_remove_side_effects(&mut self, has_world: bool) -> (items: Vec<ItemStack>)
        ensures
            final(self).container@ == removed_state(old(self).container@),
            final(self).openers == old(self).openers,
            stacks_of(items@) == if has_world {
                spilled(old(self).container@)
            } else {
                Seq::<Stack>::empty()
            },
    {
        spill(&mut self.container, has_world)
    }
}

/// Which part of a chest a block is.
#[derive(Clone, Copy, Debug, PartialEq, Eq, Structural)]
pub enum ChestType {
    Single,
    Left,
    Right,
}

/// The number of the block event that tells clients how many view a chest.
pub const VIEWERS_EVENT: i32 = 1;

/// Where a chest sounds: a single one at its center, a double one between its halves,
/// for which only the right half speaks.
pub open spec fn chest_sound_place(
    pos: (i32, i32, i32),
    chest_type: ChestType,
    connected: Direction,
) -> Option<HalfBlockPos> {
    match chest_type {
        ChestType::Left => None,
        ChestType::Right => Some(
            beside_center(pos, (connected.step().0, 0, connected.step().2)),
        ),
        ChestType::Single => Some(beside_center(pos, (0, 0, 0))),
    }
}

/// One chest block's inventory and viewers.
#[derive(Debug)]
pub struct ChestBlockEntity {
    pub container: RandomizableContainer,
    pub openers: ContainerOpenersCounter,
}

impl ChestBlockEntity {
    /// Creates one standard chest half.
    pub fn new() -> (chest: Self)
        ensures
            chest.container@ == fresh_container(CHEST_SLOTS as nat),
            chest.openers@ == (Openers { count: 0, max_range: 0 }),
    {
        ChestBlockEntity {
            container: RandomizableContainer::new(CHEST_SLOTS),
            openers: ContainerOpenersCounter::default(),
        }
    }

    /// Returns the menu title, preferring a persisted custom name.
    pub fn display_name(&self, default: NbtTag) -> (name: NbtTag)
        ensures
            name@ == match self.container@.base.custom_name {
                Some(name) => name,
                None => default@,
            },
    {
        self.container.display_name(default)
    }

    /// Returns whether this chest half has a custom menu title.
    pub fn has_custom_name(&self) -> (named: bool)
        ensures
            named == self.container@.base.custom_name is Some,
    {
        self.container.has_custom_name()
    }

    /// Returns whether a player may open this chest half.
    pub fn can_open(&self, is_spectator: bool, key_fits: bool) -> (open: bool)
        ensures
            open == ((self.container@.loot_table is None || !is_spectator) && (is_spectator
                || self.container@.base.lock is None || key_fits)),
    {
        self.container.can_open(is_spectator, key_fits)
    }

    /// The sound that the chest makes when the first viewer comes or the last one
    /// goes, of those that its block has for that, and where.
    pub fn lid_sound(
        pos: (i32, i32, i32),
        chest_type: ChestType,
        connected: Direction,
        sound: Option<Identifier>,
    ) -> (played: Option<(Identifier, HalfBlockPos)>)
        ensures
            match played {
                Some((name, place)) => {
                    &&& sound matches Some(given) && given@ == name@
                    &&& chest_sound_place(pos, chest_type, connected) == Some(place)
                },
                None => sound is None || chest_sound_place(pos, chest_type, connected) is None,
            },
    {
        let place = match chest_type {
            ChestType::Left => {
                return None;
            },
            ChestType::Right => {
                let (x, _, z) = connected.offset();
                beside(pos, x, 0, z)
            },
            ChestType::Single => beside(pos, 0, 0, 0),
        };
        match sound {
            Some(name) => Some((name, place)),
            None => None,
        }
    }

    /// The block event that tells clients how many view the chest.
    pub fn opener_count_changed(current: i32) -> (event: (i32, i32))
        ensures
            event == (VIEWERS_EVENT, current),
    {
        (VIEWERS_EVENT, current)
    }

    /// Whether the chest has a block event: only that of its viewers.
    pub fn trigger_event(param_a: i32) -> (known: bool)
        ensures
            known == (param_a == VIEWERS_EVENT),
    {
        param_a == VIEWERS_EVENT
    }

    /// Removes the chest half. Returns the items that fall out.
    pub fn pre_remove_side_effects(&mut self, has_world: bool) -> (items: Vec<ItemStack>)
        ensures
            final(self).container@ == removed_state(old(self).container@),
            final(self).openers == old(self).openers,
            stacks_of(items@) == if has_world {
                spilled(old(self).container@)
            } else {
                Seq::<Stack>::empty()
            },
    {
        spill(&mut self.container, has_world)
    }
}

/// What falls out of a furnace that is removed: its items, and the uses of recipes for
/// which it owes experience.
#[derive(Debug)]
pub struct FurnaceSpill {
    pub items: Vec<ItemStack>,
    pub recipes: Vec<(Identifier, i32)>,
}

/// A normal furnace's inventory and cooking state.
#[derive(Debug)]
pub struct FurnaceBlockEntity {
    pub container: FurnaceContainer,
}

impl FurnaceBlockEntity {
    /// Creates a normal furnace block entity.
    pub fn new() -> (furnace: Self)
        ensures
            furnace.container.wf(),
            furnace.container@ == empty_furnace(),
    {
        FurnaceBlockEntity { container: FurnaceContainer::new() }
    }

    /// Returns the menu title, preferring a persisted custom name.
    pub fn display_name(&self, default: NbtTag) -> (name: NbtTag)
        ensures
            name@ == match self.container@.storage.custom_name {
                Some(name) => name,
                None => default@,
            },
    {
        self.container.display_name(default)
    }

    /// Returns whether a player may open this furnace.
    pub fn can_open(&self, is_spectator: bool, key_fits: bool) -> (open: bool)
        ensures
            open == (is_spectator || self.container@.storage.lock is None || key_fits),
    {
        self.container.can_open(is_spectator, key_fits)
    }

    /// Advances the furnace by one tick. Returns the block's new flame where that has
    /// changed, and whether the furnace has to be saved.
    pub fn tick(&mut self, fuels: &FuelValues, registry: &Registry) -> (result: (Option<bool>, bool))
        requires
            old(self).container.wf(),
            old(self).container@.can_advance(),
        ensures
            final(self).container.wf(),
            ({
                let before = old(self).container@;
                let (after, changed) = before.ticked(*fuels, *registry);
                &&& final(self).container@ == after
                &&& result.0 == if before.is_lit() != after.is_lit() {
                    Some(after.is_lit())
                } else {
                    None
                }
                &&& result.1 == (changed || before.is_lit() != after.is_lit())
            }),
    {
        let FurnaceTickResult { changed, lit_changed, is_lit } = self.container.server_tick(
            fuels,
            registry,
        );
        let lit = if lit_changed {
            Some(is_lit)
        } else {
            None
        };
        (lit, changed)
    }

    /// Removes the furnace. Returns what falls out, where there is a world; without one
    /// it is lost.
    pub fn pre_remove_side_effects(&mut self, has_world: bool) -> (spill: Option<FurnaceSpill>)
        requires
            old(self).container.wf(),
        ensures
            final(self).container.wf(),
            final(self).container@ == (Furnace {
                storage: Storage {
                    items: empty_slots(FURNACE_SLOTS as nat),
                    ..old(self).container@.storage
                },
                recipes_used: Seq::<(Id, i32)>::empty(),
                ..old(self).container@
            }),
            match spill {
                Some(spill) => {
                    &&& has_world
                    &&& stacks_of(spill.items@) == old(self).container@.storage.items
                    &&& uses_of(spill.recipes@) == old(self).container@.recipes_used
                },
                None => !has_world,
            },
    {
        let items = self.container.take_items();
        let recipes = self.container.take_recipes_used();
        if has_world {
            Some(FurnaceSpill { items, recipes })
        } else {
            None
        }
    }
}

/// Removing a container keeps its number of slots, and leaves nothing in them unless
/// loot is still to come.
pub proof fn law_removal_keeps_the_slots(state: Randomizable)
    ensures
        removed_state(state).base.items.len() == state.base.items.len(),
        removed_state(state).removed,
        state.loot_table is None && state.pending is None ==> forall|i: int|
            0 <= i < state.base.items.len() ==> (
            #[trigger] removed_state(state).base.items[i]).is_empty(),
{
}

/// The halves of a double chest sound once: the left one stays silent, and the right
/// one speaks midway between the centers of the two.
pub proof fn law_double_chest_sounds_once(pos: (i32, i32, i32), connected: Direction)
    requires
        connected.step().1 == 0,
    ensures
        chest_sound_place(pos, ChestType::Left, connected) is None,
        chest_sound_place(pos, ChestType::Right, connected) matches Some(place) && {
            let (x, y, z) = connected.step();
            &&& 2 * place.x == (2 * pos.0 + 1) + (2 * (pos.0 + x) + 1)
            &&& 2 * place.y == (2 * pos.1 + 1) + (2 * (pos.1 + y) + 1)
            &&& 2 * place.z == (2 * pos.2 + 1) + (2 * (pos.2 + z) + 1)
        },
{
}

/// A direction and the one the other way are different, turning around twice changes
/// nothing, and a step and a step back lead nowhere. Every step is of one block.
pub proof fn law_opposite_steps_cancel(direction: Direction)
    ensures
        direction.reverse().reverse() == direction,
        direction.reverse() != direction,
        direction.step().0 + direction.reverse().step().0 == 0,
        direction.step().1 + direction.reverse().step().1 == 0,
        direction.step().2 + direction.reverse().step().2 == 0,
        direction.step().0 * direction.step().0 + direction.step().1 * direction.step().1
            + direction.step().2 * direction.step().2 == 1,
        direction.step().1 != 0 <==> direction == Direction::Up || direction == Direction::Down,
        direction.step().1 > 0 <==> direction == Direction::Up,
        direction.step().0 > 0 <==> direction == Direction::East,
        direction.step().2 > 0 <==> direction == Direction::South,
{
}

/// What falls out of a container that is removed is no longer in it, and what does not
/// fall out is: no item is there twice, and none is lost.
pub proof fn law_removed_items_fall_out_once(state: Randomizable)
    ensures
        ({
            let after = removed_state(state);
            let waits = state.loot_table is Some || state.pending is Some;
            &&& after.removed
            &&& after.base.items.len() == state.base.items.len()
            &&& waits ==> spilled(state).len() == 0 && after.base.items == state.base.items
            &&& !waits ==> spilled(state) == state.base.items && forall|i: int|
                0 <= i < after.base.items.len() ==> (#[trigger] after.base.items[i]).is_empty()
            &&& after.loot_table == state.loot_table
            &&& after.pending == state.pending
        }),
{
}

} // verus!
