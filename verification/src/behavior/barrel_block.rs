//! Barrel block behavior: a 27-slot container that opens when used.
use vstd::prelude::*;

use crate::behavior::InteractionResult;
use crate::block_entity::entities::Direction;
use crate::block_entity::randomizable_container::ContainerReadiness;
use crate::ident::Identifier;
use crate::inventory::provider::{
    ContainerAccessResult, MenuCreation, MenuOutcome, MenuProvider,
};

verus! {

/// Behavior for barrel blocks.
#[derive(Debug)]
pub struct BarrelBlock {
    pub block: Identifier,
}

/// What using a container block does: whether a menu is opened and the use counted.
#[derive(Clone, Copy, Debug, PartialEq, Eq, Structural)]
pub struct BlockUse {
    pub result: InteractionResult,
    pub opens_menu: bool,
}

impl BarrelBlock {
    /// Creates a new barrel block behavior.
    pub fn new(block: Identifier) -> (barrel: Self)
        ensures
            barrel.block == block,
    {
        BarrelBlock { block }
    }

    /// A placed barrel faces the player who looks at it.
    pub fn get_state_for_placement(&self, nearest_looking_direction: Direction) -> (facing:
        Direction)
        ensures
            facing == nearest_looking_direction.reverse(),
    {
        nearest_looking_direction.opposite()
    }

    /// Using a barrel always succeeds. Where there is a barrel to be opened, its menu
    /// opens and the use counts.
    pub fn use_without_item(&self, has_provider: bool) -> (result: BlockUse)
        ensures
            result == (BlockUse { result: InteractionResult::Success, opens_menu: has_provider }),
    {
        BlockUse { result: InteractionResult::Success, opens_menu: has_provider }
    }

    /// The redstone signal of a barrel whose contents give `signal`: none where it is
    /// no barrel or its contents are not there yet.
    pub fn get_analog_output_signal(
        &self,
        is_barrel: bool,
        access: Option<ContainerAccessResult>,
        signal: i32,
    ) -> (output: i32)
        ensures
            output == if is_barrel && access == Some(ContainerAccessResult::Ready) {
                signal
            } else {
                0
            },
    {
        if !is_barrel {
            return 0;
        }
        match access {
            Some(ContainerAccessResult::Ready) => signal,
            _ => 0,
        }
    }
}

/// A barrel that a player wants to open.
#[derive(Clone, Copy, Debug, PartialEq, Eq, Structural)]
pub struct BarrelMenuProvider {
    pub is_barrel: bool,
    pub can_open: bool,
    pub is_spectator: bool,
    pub has_container: bool,
}

impl MenuProvider for BarrelMenuProvider {
    open spec fn prepares(&self) -> bool {
        self.is_barrel && self.can_open && self.has_container
    }

    open spec fn outcome(&self, access: ContainerAccessResult) -> MenuOutcome {
        if self.prepares() {
            MenuOutcome {
                creation: match access {
                    ContainerAccessResult::Ready => MenuCreation::Opened,
                    ContainerAccessResult::Pending => MenuCreation::Deferred,
                    ContainerAccessResult::Failed => MenuCreation::Unavailable,
                },
                notify_locked: false,
            }
        } else {
            MenuOutcome {
                creation: MenuCreation::Unavailable,
                notify_locked: self.is_barrel && !self.can_open && !self.is_spectator,
            }
        }
    }

    fn create_menu<F: FnOnce() -> ContainerAccessResult>(self, prepare: F) -> (outcome:
        MenuOutcome) {
        let creation = MenuCreation::Unavailable;
        if !self.is_barrel {
            return MenuOutcome { creation, notify_locked: false };
        }
        if !self.can_open {
            return MenuOutcome { creation, notify_locked: !self.is_spectator };
        }
        if !self.has_container {
            return MenuOutcome { creation, notify_locked: false };
        }
        let access = prepare();
        let creation = match access {
            ContainerAccessResult::Ready => MenuCreation::Opened,
            ContainerAccessResult::Pending => MenuCreation::Deferred,
            ContainerAccessResult::Failed => MenuCreation::Unavailable,
        };
        let outcome = MenuOutcome { creation, notify_locked: false };
        assert(prepare.ensures((), access) && outcome == self.outcome(access));
        outcome
    }
}

/// What is known of the player who waits for a barrel.
#[derive(Clone, Copy, Debug, PartialEq, Eq, Structural)]
pub struct WaitingPlayer {
    /// Whether the player still waits for this very barrel.
    pub awaits_token: bool,
    /// Whether the player's world is still the barrel's.
    pub same_world: bool,
    /// Whether the player is among those of the world.
    pub in_world: bool,
    pub has_container_open: bool,
}

/// What is known of the container where the barrel was.
#[derive(Clone, Copy, Debug, PartialEq, Eq, Structural)]
pub struct FoundContainer {
    pub container_id: u64,
    pub still_valid: bool,
    pub can_open: bool,
    pub readiness: ContainerReadiness,
}

/// What is known of the place where the barrel was.
#[derive(Clone, Copy, Debug, PartialEq, Eq, Structural)]
pub struct FoundBlock {
    pub is_same_block: bool,
    /// The container, where there still is a barrel with one.
    pub container: Option<FoundContainer>,
}

/// What waiting for a barrel's contents comes to.
#[derive(Clone, Copy, Debug, PartialEq, Eq, Structural)]
pub enum DeferredOpen {
    /// The player is gone: nothing is left to do.
    Abandoned,
    /// The player waits no longer.
    Dropped,
    /// The contents are still to come.
    Pending,
    /// The player waits no longer, and the barrel opens unless the wait had ended.
    Open,
}

/// A player's wait for a barrel's contents.
#[derive(Clone, Copy, Debug, PartialEq, Eq, Structural)]
pub struct DeferredBarrelOpenJob {
    pub container_id: u64,
}

impl WaitingPlayer {
    /// Whether the player can still be shown the barrel.
    pub open spec fn can_wait(self) -> bool {
        self.awaits_token && self.same_world && self.in_world && !self.has_container_open
    }
}

impl DeferredBarrelOpenJob {
    /// Whether the container is the one that was asked for, and may be opened.
    pub open spec fn accepts(self, container: FoundContainer) -> bool {
        container.container_id == self.container_id && container.still_valid && container.can_open
    }

    /// What the wait comes to.
    pub open spec fn polled(self, player: Option<WaitingPlayer>, block: FoundBlock) -> DeferredOpen {
        match player {
            None => DeferredOpen::Abandoned,
            Some(player) => match block.container {
                Some(container) => if player.can_wait() && block.is_same_block && self.accepts(
                    container,
                ) {
                    match container.readiness {
                        ContainerReadiness::Pending => DeferredOpen::Pending,
                        ContainerReadiness::NeedsPreparation => DeferredOpen::Dropped,
                        ContainerReadiness::Ready => DeferredOpen::Open,
                    }
                } else {
                    DeferredOpen::Dropped
                },
                None => DeferredOpen::Dropped,
            },
        }
    }

    /// Looks again at what the wait comes to. Everything that let the player wait is
    /// checked anew.
    pub fn poll(&self, player: Option<WaitingPlayer>, block: FoundBlock) -> (result: DeferredOpen)
        ensures
            result == self.polled(player, block),
    {
        let player = match player {
            Some(player) => player,
            None => {
                return DeferredOpen::Abandoned;
            },
        };
        if !player.awaits_token || !player.same_world || !player.in_world
            || player.has_container_open {
            return DeferredOpen::Dropped;
        }
        if !block.is_same_block {
            return DeferredOpen::Dropped;
        }
        let container = match block.container {
            Some(container) => container,
            None => {
                return DeferredOpen::Dropped;
            },
        };
        if container.container_id != self.container_id || !container.still_valid
            || !container.can_open {
            return DeferredOpen::Dropped;
        }
        match container.readiness {
            ContainerReadiness::Pending => DeferredOpen::Pending,
            ContainerReadiness::NeedsPreparation => DeferredOpen::Dropped,
            ContainerReadiness::Ready => DeferredOpen::Open,
        }
    }

    /// Whether canceling ends a player's wait.
    pub fn cancel(&self, player_present: bool) -> (ends_wait: bool)
        ensures
            ends_wait == player_present,
    {
        player_present
    }
}

/// A barrel is opened for a waiting player only where the player may still open that
/// very barrel and its contents are there.
pub proof fn law_deferred_open_is_revalidated(
    job: DeferredBarrelOpenJob,
    player: Option<WaitingPlayer>,
    block: FoundBlock,
)
    ensures
        job.polled(player, block) == DeferredOpen::Open <==> {
            &&& player matches Some(player) && player.can_wait()
            &&& block.is_same_block
            &&& block.container matches Some(container) && job.accepts(container)
                && container.readiness == ContainerReadiness::Ready
        },
{
}

/// A barrel opens only where the player may open it and its contents are ready; nobody
/// is told of a lock whom the barrel would let in, and spectators never are.
pub proof fn law_locked_barrel_stays_shut(
    provider: BarrelMenuProvider,
    access: ContainerAccessResult,
)
    ensures
        ({
            let outcome = provider.outcome(access);
            &&& outcome.creation == MenuCreation::Opened ==> provider.is_barrel && provider.can_open
                && provider.has_container && access == ContainerAccessResult::Ready
            &&& outcome.creation == MenuCreation::Deferred ==> provider.can_open && access
                == ContainerAccessResult::Pending
            &&& provider.is_barrel && provider.can_open && provider.has_container && access
                == ContainerAccessResult::Ready ==> outcome.creation == MenuCreation::Opened
            &&& outcome.notify_locked ==> !provider.can_open && !provider.is_spectator
                && outcome.creation == MenuCreation::Unavailable
            &&& provider.is_barrel && !provider.can_open && !provider.is_spectator
                ==> outcome.notify_locked
        }),
{
}

} // verus!
