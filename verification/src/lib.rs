//! The logic of a commander for DRACOON: importing room structures from JSON and
//! CSV files, and exporting them.
//!
//! - [`models`]: the command line, and the errors that commands fail with.
//! - [`nodes::models`]: rooms and their permissions; [`nodes::tree`] walks
//!   through the rooms below a room.
//! - [`nodes::rules`], [`nodes::ids`] and [`nodes::validation`]: what an import
//!   is checked for.
//! - [`nodes::import`]: templates, and what it takes to create rooms.
//! - [`nodes::export`]: what is exported, and where it stands in the tree.
//! - [`text`], [`paths`] and [`maps`]: texts, node paths and maps of ids.
//! - [`crates`]: the calls into other crates.
pub mod crates;
pub mod maps;
pub mod models;
pub mod nodes;
pub mod paths;
pub mod text;
