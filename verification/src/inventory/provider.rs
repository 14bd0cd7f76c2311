//! Block menu providers shared by regular and spectator interactions.
use vstd::prelude::*;

verus! {

/// Outcome of [`MenuProvider::create_menu`].
#[derive(Clone, Copy, Debug, PartialEq, Eq, Structural)]
pub enum MenuCreation {
    /// The menu opens.
    Opened,
    /// Container preparation goes on and opens the menu on a later tick.
    Deferred,
    /// There is no menu for this player.
    Unavailable,
}

/// Whether a container's contents are there to be looked at.
#[derive(Clone, Copy, Debug, PartialEq, Eq, Structural)]
pub enum ContainerAccessResult {
    Ready,
    Pending,
    Failed,
}

/// What opening a block's menu comes to, and whether the player is told that the
/// container is locked.
#[derive(Clone, Copy, Debug, PartialEq, Eq, Structural)]
pub struct MenuOutcome {
    pub creation: MenuCreation,
    pub notify_locked: bool,
}

/// A block menu that players open.
pub trait MenuProvider: Sized {
    /// Whether the container's contents have to be prepared for the player.
    spec fn prepares(&self) -> bool;

    /// What opening comes to, for what the preparation came to.
    spec fn outcome(&self, access: ContainerAccessResult) -> MenuOutcome;

    /// Decides on the menu. The contents are prepared only for a player who may open
    /// it.
    fn create_menu<F: FnOnce() -> ContainerAccessResult>(self, prepare: F) -> (outcome: MenuOutcome)
        requires
            self.prepares() ==> prepare.requires(()),
        ensures
            self.prepares() ==> exists|access: ContainerAccessResult|
                #[trigger] prepare.ensures((), access) && outcome == self.outcome(access),
            !self.prepares() ==> forall|access: ContainerAccessResult|
                outcome == #[trigger] self.outcome(access),
    ;
}

} // verus!
