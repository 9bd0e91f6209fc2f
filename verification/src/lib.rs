//! Token-bounded file inspection.
pub mod api;
pub mod cli;
pub mod inspect;
pub mod json;
pub mod listing;
pub mod pattern;
pub mod render;
pub mod repo_map;
pub mod skeleton;
pub mod text;
pub mod toon;
pub mod tree;
pub mod workspace;
