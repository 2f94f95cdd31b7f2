//! Keyboard-layout model and verified building blocks of a tabu-search
//! optimizer for a two-layer kana layout (the "tsuki" layout family).

pub mod chars;
pub mod layout;
pub mod user_layout;
pub mod config;
pub mod search;
pub mod cost;
pub mod corpus;
