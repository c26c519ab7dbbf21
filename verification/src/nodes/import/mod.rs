//! Importing room structures.
pub mod adjust;
pub mod fill;
pub mod models;
pub mod plain;
pub mod room_map;
pub mod rooms;
pub mod tasks;
pub mod template;
