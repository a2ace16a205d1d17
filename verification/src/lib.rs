//! Deterministic state-transition core of an automation game: players own
//! automata that cycle through modifier cards, driven by a single tick counter.

pub mod card;
pub mod config;
pub mod convention;
pub mod error;
pub mod events;
pub mod object;
pub mod persistence;
pub mod player;
pub mod registry;
pub mod settlement;
pub mod state;
pub mod storage;
pub mod word;
