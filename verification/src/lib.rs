pub mod behavior;
pub mod block_entity;
pub mod data_components;
mod hashing;
pub mod ident;
pub mod inventory;
pub mod item_nbt;
pub mod item_stack;
pub mod keyed;
pub mod locate;
pub mod loot_table;
pub mod map;
pub mod map_color;
pub mod nbt;
pub mod random;
pub mod random_sequences;
pub mod registry;
pub mod saved_data;
