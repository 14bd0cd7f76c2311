//! Furnace block behavior.
use vstd::prelude::*;

use crate::behavior::barrel_block::BlockUse;
use crate::behavior::InteractionResult;
use crate::block_entity::entities::Direction;
use crate::ident::{vanilla_id, Identifier};
use crate::inventory::provider::{
    ContainerAccessResult, MenuCreation, MenuOutcome, MenuProvider,
};

verus! {

/// Furnace block behavior.
#[derive(Debug)]
pub struct FurnaceBlock {
    pub block: Identifier,
}

impl FurnaceBlock {
    /// Creates furnace behavior for `block`.
    pub fn new(block: Identifier) -> (furnace: Self)
        ensures
            furnace.block == block,
    {
        FurnaceBlock { block }
    }

    /// A placed furnace faces the player.
    pub fn get_state_for_placement(&self, horizontal_direction: Direction) -> (facing: Direction)
        ensures
            facing == horizontal_direction.reverse(),
    {
        horizontal_direction.opposite()
    }

    /// Using a furnace always succeeds. Where there is a furnace to be opened, its menu
    /// opens and the use counts.
    pub fn use_without_item(&self, has_provider: bool) -> (result: BlockUse)
        ensures
            result == (BlockUse { result: InteractionResult::Success, opens_menu: has_provider }),
    {
        BlockUse { result: InteractionResult::Success, opens_menu: has_provider }
    }

    /// Whether a block entity of some type is ticked: only a furnace is.
    pub fn get_block_entity_ticker(&self, block_entity_type: &Identifier) -> (ticks: bool)
        ensures
            ticks == (block_entity_type@ == vanilla_id("furnace"@)),
    {
        block_entity_type.is_vanilla("furnace")
    }

    /// The redstone signal of a furnace whose contents, if there are any, give
    /// `signal`.
    pub fn get_analog_output_signal(&self, signal: Option<i32>) -> (output: i32)
        ensures
            output == match signal {
                Some(signal) => signal,
                None => 0,
            },
    {
        match signal {
            Some(signal) => signal,
            None => 0,
        }
    }
}

/// A furnace that a player wants to open.
#[derive(Clone, Copy, Debug, PartialEq, Eq, Structural)]
pub struct FurnaceMenuProvider {
    pub is_furnace: bool,
    pub can_open: bool,
    pub has_container: bool,
}

impl MenuProvider for FurnaceMenuProvider {
    open spec fn prepares(&self) -> bool {
        false
    }

    open spec fn outcome(&self, access: ContainerAccessResult) -> MenuOutcome {
        MenuOutcome {
            creation: if self.is_furnace && self.can_open && self.has_container {
                MenuCreation::Opened
            } else {
                MenuCreation::Unavailable
            },
            notify_locked: self.is_furnace && !self.can_open,
        }
    }

    fn create_menu<F: FnOnce() -> ContainerAccessResult>(self, _prepare: F) -> (outcome:
        MenuOutcome) {
        let creation = MenuCreation::Unavailable;
        if !self.is_furnace {
            return MenuOutcome { creation, notify_locked: false };
        }
        if !self.can_open {
            return MenuOutcome { creation, notify_locked: true };
        }
        if !self.has_container {
            return MenuOutcome { creation, notify_locked: false };
        }
        MenuOutcome { creation: MenuCreation::Opened, notify_locked: false }
    }
}

/// A furnace opens just where there is one with a container that the player may open,
/// and the player is told of a lock just where a furnace may not be opened.
pub proof fn law_locked_furnace_stays_shut(
    provider: FurnaceMenuProvider,
    access: ContainerAccessResult,
)
    ensures
        provider.outcome(access).creation == MenuCreation::Opened ==> provider.can_open
            && provider.is_furnace && provider.has_container,
        provider.outcome(access).notify_locked ==> !provider.can_open && provider.outcome(
            access,
        ).creation == MenuCreation::Unavailable,
        provider.is_furnace && provider.has_container ==> (provider.outcome(access).creation
            == MenuCreation::Opened) != provider.outcome(access).notify_locked,
        !provider.is_furnace ==> !provider.outcome(access).notify_locked,
{
}

} // verus!
