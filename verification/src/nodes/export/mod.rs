//! Exporting room structures.
pub mod hierarchy;
pub mod models;
pub mod order;
pub mod permissions;
pub mod placing;
pub mod reach;
pub mod sorting;
pub mod walk;
