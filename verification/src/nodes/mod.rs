//! Rooms: what they are, and how they are imported and exported.
pub mod export;
pub mod ids;
pub mod import;
pub mod models;
pub mod rules;
pub mod target;
pub mod tree;
pub mod validation;
