//! Catalog of game-mod packages gathered from CKAN-style repositories.

pub mod text;
pub mod version;
pub mod game;
pub mod game_spec;
pub mod asset;
pub mod json;
pub mod spec_version;
pub mod catalog;
pub mod client;
pub mod one_or_many;
pub mod id;
