//! Rules engine for a two-player hidden-information grid battle game.
//!
//! The engine owns the canonical match state: it generates randomized,
//! non-touching ship placements from a seed, validates and applies attack
//! moves, detects victory, and produces player-specific redacted views that
//! never reveal an opponent's undiscovered ships.

pub mod board;
pub mod rng;
pub mod placement;
pub mod state;
pub mod moves;
pub mod victory;
pub mod view;
