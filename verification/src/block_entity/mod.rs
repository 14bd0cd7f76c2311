//! The data of container blocks.
pub mod base_container;
pub mod components;
pub mod container_openers_counter;
pub mod entities;
pub mod exploration;
pub mod fuel_values;
pub mod furnace;
pub mod preparation;
pub mod randomizable_container;
