//! Menus over containers and the player's inventory.
pub mod chest_menu;
pub mod furnace_menu;
pub mod furnace_slots;
pub mod provider;
pub mod section;
