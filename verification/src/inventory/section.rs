//! Runs of menu slots.
use vstd::prelude::*;

verus! {

/// Number of main-inventory slots of a player.
pub const PLAYER_MAIN_SLOTS: usize = 27;

/// Number of hotbar slots of a player.
pub const PLAYER_HOTBAR_SLOTS: usize = 9;

/// The menu slots from `start` up to `end`.
#[derive(Clone, Copy, Debug, PartialEq, Eq, Structural)]
pub struct Section {
    pub start: usize,
    pub end: usize,
}

impl Section {
    pub open spec fn holds(self, slot: usize) -> bool {
        self.start <= slot < self.end
    }

    /// Whether a slot belongs to the section.
    pub fn contains(&self, slot: usize) -> (found: bool)
        ensures
            found == self.holds(slot),
    {
        self.start <= slot && slot < self.end
    }
}

/// From which end a section is filled.
#[derive(Clone, Copy, Debug, PartialEq, Eq, Structural)]
pub enum FillDirection {
    Forward,
    Backward,
}

/// The player's slots in a menu, which follow those of the container.
#[derive(Clone, Copy, Debug, PartialEq, Eq, Structural)]
pub struct PlayerSections {
    pub main: Section,
    pub hotbar: Section,
    pub all: Section,
}

/// The player's slots after `start` container slots: the main inventory, and after it
/// the hotbar.
pub open spec fn player_sections_after(start: int) -> PlayerSections {
    PlayerSections {
        main: Section { start: start as usize, end: (start + 27) as usize },
        hotbar: Section { start: (start + 27) as usize, end: (start + 36) as usize },
        all: Section { start: start as usize, end: (start + 36) as usize },
    }
}

/// The player's slots after `start` container slots.
pub fn player_sections(start: usize) -> (sections: PlayerSections)
    requires
        start <= usize::MAX - 36,
    ensures
        sections == player_sections_after(start as int),
{
    let main: usize = start + PLAYER_MAIN_SLOTS;
    let end: usize = main + PLAYER_HOTBAR_SLOTS;
    PlayerSections {
        main: Section { start, end: main },
        hotbar: Section { start: main, end },
        all: Section { start, end },
    }
}

} // verus!
