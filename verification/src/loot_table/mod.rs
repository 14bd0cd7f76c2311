//! Loot tables: what a chest, a block or an entity yields.
pub mod conditions;
pub mod drawing;
pub mod effects;
pub mod enchanting;
pub mod entries;
pub mod error;
pub mod filling;
pub mod fitting;
pub mod functions;
pub mod generation;
pub mod item_ops;
pub mod number;
pub mod requirements;
