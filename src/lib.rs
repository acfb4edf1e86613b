//! Gameplay core of a territory-conquest grid game: an indexed tile grid,
//! the movement and trail rules, the self-collision check, the flood-fill
//! territory claim and the death reset.
pub mod components;
pub mod grid;
pub mod events;
pub mod game;
pub mod resources;
pub mod claim;
pub mod collision;
pub mod death;
pub mod input;
pub mod movement;
pub mod render;
pub mod trails;
