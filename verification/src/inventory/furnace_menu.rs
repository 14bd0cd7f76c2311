//! Furnace menu: its slots, its synchronized numbers and where a shift-clicked stack
//! goes.
use vstd::prelude::*;

use crate::block_entity::fuel_values::FuelValues;
use crate::block_entity::furnace::{
    find_smelting_recipe, menu_numbers, recipe_for, FurnaceContainer, FURNACE_SLOTS,
};
use crate::inventory::section::{
    player_sections, player_sections_after, FillDirection, Section,
};
use crate::item_stack::{ItemStack, Stack};
use crate::registry::Registry;

verus! {

/// Where a stack is moved to.
#[derive(Clone, Copy, Debug, PartialEq, Eq, Structural)]
pub struct MoveRoute {
    pub target: Section,
    pub direction: FillDirection,
}

/// What moving a stack came to: whether anything moved, and what is left of it.
#[derive(Debug)]
pub struct MovedStack {
    pub moved: bool,
    pub remaining: ItemStack,
}

/// What a shift-click came to.
#[derive(Debug)]
pub enum QuickMove {
    /// Nothing happened.
    Nothing,
    /// The source slot is updated to what is left, of which nothing was taken.
    Untaken { remaining: ItemStack },
    /// The source slot is updated to what is left, and the rest was taken from it.
    Taken { clicked: ItemStack, remaining: ItemStack },
}

impl QuickMove {
    /// Whether this follows from a stack that was clicked and what moving it came to.
    pub open spec fn concludes(self, clicked: Stack, moved: bool, remaining: Stack) -> bool {
        match self {
            QuickMove::Nothing => !moved,
            QuickMove::Untaken { remaining: left } => {
                &&& moved
                &&& remaining.count == clicked.count
                &&& left@ == remaining
            },
            QuickMove::Taken { clicked: taken, remaining: left } => {
                &&& moved
                &&& remaining.count != clicked.count
                &&& taken@ == clicked
                &&& left@ == remaining
            },
        }
    }
}

/// Per-menu furnace routing and synchronized progress data.
#[derive(Clone, Copy, Debug)]
pub struct FurnaceKind {
    pub input: Section,
    pub fuel: Section,
    pub result: Section,
    pub player_main: Section,
    pub player_hotbar: Section,
    pub player_all: Section,
    pub data: [i16; 4],
}

/// The slots of a furnace menu.
pub open spec fn furnace_sections(kind: FurnaceKind) -> bool {
    let player = player_sections_after(3);
    &&& kind.input == Section { start: 0, end: 1 }
    &&& kind.fuel == Section { start: 1, end: 2 }
    &&& kind.result == Section { start: 2, end: 3 }
    &&& kind.player_main == player.main
    &&& kind.player_hotbar == player.hotbar
    &&& kind.player_all == player.all
}

/// Builds the furnace menu: the three slots of the furnace, then the player's. Its
/// numbers start at zero.
pub fn furnace() -> (kind: FurnaceKind)
    ensures
        furnace_sections(kind),
        kind.data@ == seq![0i16, 0i16, 0i16, 0i16],
{
    let player = player_sections(FURNACE_SLOTS);
    let data: [i16; 4] = [0, 0, 0, 0];
    assert(data@ =~= seq![0i16, 0i16, 0i16, 0i16]);
    FurnaceKind {
        input: Section { start: 0, end: 1 },
        fuel: Section { start: 1, end: 2 },
        result: Section { start: 2, end: 3 },
        player_main: player.main,
        player_hotbar: player.hotbar,
        player_all: player.all,
        data,
    }
}

impl FurnaceKind {
    /// The number of slots of the menu.
    pub open spec fn slots(self) -> usize {
        self.player_all.end
    }

    /// Where a stack of a slot goes. A result goes to the player's slots, from the
    /// last one on. What the player holds goes to the ingredient if it can be
    /// smelted, else to the fuel if it burns, else to the other part of the player's
    /// inventory. What lies in the furnace otherwise goes to the player's slots.
    pub open spec fn route(
        self,
        slot: usize,
        stack: Stack,
        fuels: FuelValues,
        registry: Registry,
    ) -> Option<MoveRoute> {
        let forward = FillDirection::Forward;
        if slot >= self.slots() || stack.is_empty() {
            None
        } else if self.result.holds(slot) {
            Some(MoveRoute { target: self.player_all, direction: FillDirection::Backward })
        } else if self.input.holds(slot) || self.fuel.holds(slot) {
            Some(MoveRoute { target: self.player_all, direction: forward })
        } else if recipe_for(stack, registry) is Some {
            Some(MoveRoute { target: self.input, direction: forward })
        } else if fuels.stack_time(stack) > 0 {
            Some(MoveRoute { target: self.fuel, direction: forward })
        } else if self.player_main.holds(slot) {
            Some(MoveRoute { target: self.player_hotbar, direction: forward })
        } else if self.player_hotbar.holds(slot) {
            Some(MoveRoute { target: self.player_main, direction: forward })
        } else {
            None
        }
    }

    /// The number of slots of the menu.
    pub fn slot_count(&self) -> (count: usize)
        ensures
            count == self.slots(),
    {
        self.player_all.end
    }

    /// Copies the furnace's numbers into the menu.
    pub fn sync_data(&mut self, furnace: &FurnaceContainer)
        ensures
            final(self).data@ == menu_numbers(furnace@),
            *final(self) == (FurnaceKind { data: final(self).data, ..*old(self) }),
    {
        self.data = furnace.menu_data();
    }

    /// Whether a stack can be smelted.
    pub fn can_smelt(stack: &ItemStack, registry: &Registry) -> (smelts: bool)
        ensures
            smelts == recipe_for(stack@, *registry) is Some,
    {
        find_smelting_recipe(stack, registry).is_some()
    }

    /// Where a stack of a slot goes.
    pub fn quick_move_route(
        &self,
        slot: usize,
        stack: &ItemStack,
        fuels: &FuelValues,
        registry: &Registry,
    ) -> (route: Option<MoveRoute>)
        ensures
            route == self.route(slot, stack@, *fuels, *registry),
    {
        if slot >= self.slot_count() || stack.is_empty() {
            return None;
        }
        let forward = FillDirection::Forward;
        if self.result.contains(slot) {
            Some(MoveRoute { target: self.player_all, direction: FillDirection::Backward })
        } else if !self.input.contains(slot) && !self.fuel.contains(slot) {
            if FurnaceKind::can_smelt(stack, registry) {
                Some(MoveRoute { target: self.input, direction: forward })
            } else if fuels.is_fuel(stack) {
                Some(MoveRoute { target: self.fuel, direction: forward })
            } else if self.player_main.contains(slot) {
                Some(MoveRoute { target: self.player_hotbar, direction: forward })
            } else if self.player_hotbar.contains(slot) {
                Some(MoveRoute { target: self.player_main, direction: forward })
            } else {
                None
            }
        } else {
            Some(MoveRoute { target: self.player_all, direction: forward })
        }
    }

    /// Moves the stack of a slot where it goes. There is one attempt: a stack that
    /// does not fit where it goes stays.
    pub fn quick_move<M: FnOnce(MoveRoute) -> MovedStack>(
        &self,
        slot: usize,
        stack: ItemStack,
        fuels: &FuelValues,
        registry: &Registry,
        move_stack: M,
    ) -> (result: QuickMove)
        requires
            forall|route: MoveRoute|
                self.route(slot, stack@, *fuels, *registry) == Some(route)
                    ==> #[trigger] move_stack.requires((route,)),
        ensures
            match self.route(slot, stack@, *fuels, *registry) {
                Some(route) => exists|moved: MovedStack| #[trigger]
                    move_stack.ensures((route,), moved) && result.concludes(
                        stack@,
                        moved.moved,
                        moved.remaining@,
                    ),
                None => result is Nothing,
            },
    {
        let route = match self.quick_move_route(slot, &stack, fuels, registry) {
            Some(route) => route,
            None => {
                return QuickMove::Nothing;
            },
        };
        let moved = move_stack(route);
        let ghost outcome = moved;
        let result = if !moved.moved {
            QuickMove::Nothing
        } else if moved.remaining.count == stack.count {
            QuickMove::Untaken { remaining: moved.remaining }
        } else {
            QuickMove::Taken { clicked: stack, remaining: moved.remaining }
        };
        assert(move_stack.ensures((route,), outcome));
        result
    }
}

/// What the player holds goes to the ingredient wherever it can be smelted, whether
/// or not it also burns.
pub proof fn law_smelting_comes_before_burning(
    kind: FurnaceKind,
    slot: usize,
    stack: Stack,
    fuels: FuelValues,
    registry: Registry,
)
    requires
        furnace_sections(kind),
        kind.player_all.holds(slot),
        !stack.is_empty(),
    ensures
        recipe_for(stack, registry) is Some ==> kind.route(slot, stack, fuels, registry) == Some(
            MoveRoute { target: kind.input, direction: FillDirection::Forward },
        ),
        recipe_for(stack, registry) is None && fuels.stack_time(stack) > 0 ==> kind.route(
            slot,
            stack,
            fuels,
            registry,
        ) == Some(MoveRoute { target: kind.fuel, direction: FillDirection::Forward }),
{
}

/// A stack never goes to the section it comes from, and never to the result.
pub proof fn law_route_leaves_its_section(
    kind: FurnaceKind,
    slot: usize,
    stack: Stack,
    fuels: FuelValues,
    registry: Registry,
)
    requires
        furnace_sections(kind),
    ensures
        kind.route(slot, stack, fuels, registry) matches Some(route) ==> {
            &&& !route.target.holds(slot)
            &&& route.target != kind.result
        },
{
}

/// Every slot of a furnace menu has its own way: what lies in the furnace goes to the 36
/// slots of the player, a result from the last of them on and everything else from the
/// first; what the player holds and a furnace has no use for changes between the 27
/// slots of the main inventory and the 9 of the hotbar.
pub proof fn law_slots_have_their_ways(
    kind: FurnaceKind,
    slot: usize,
    stack: Stack,
    fuels: FuelValues,
    registry: Registry,
)
    requires
        furnace_sections(kind),
        stack.count > 0,
        stack.item != crate::ident::vanilla_id("air"@),
    ensures
        ({
            let route = kind.route(slot, stack, fuels, registry);
            let useless = recipe_for(stack, registry) is None && fuels.stack_time(stack) <= 0;
            &&& slot >= 39 <==> route is None
            &&& slot < 3 ==> route->Some_0.target.start == 3 && route->Some_0.target.end == 39
            &&& slot < 2 ==> route->Some_0.direction == FillDirection::Forward
            &&& slot == 2 ==> route->Some_0.direction == FillDirection::Backward
            &&& 3 <= slot < 39 && recipe_for(stack, registry) is Some
                ==> route->Some_0.target.start == 0 && route->Some_0.target.end == 1
            &&& 3 <= slot < 39 && recipe_for(stack, registry) is None && !useless
                ==> route->Some_0.target.start == 1 && route->Some_0.target.end == 2
            &&& 3 <= slot < 30 && useless ==> route->Some_0.target.start == 30
                && route->Some_0.target.end == 39
            &&& 30 <= slot < 39 && useless ==> route->Some_0.target.start == 3
                && route->Some_0.target.end == 30
        }),
{
}

} // verus!
