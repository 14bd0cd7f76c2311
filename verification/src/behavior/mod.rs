//! What blocks and items do when players use them.
use vstd::prelude::*;

pub mod barrel_block;
pub mod block_item;
pub mod empty_map;
pub mod furnace_block;

verus! {

/// What an interaction came to.
#[derive(Clone, Copy, Debug, PartialEq, Eq, Structural)]
pub enum InteractionResult {
    Success,
    Fail,
}

} // verus!
