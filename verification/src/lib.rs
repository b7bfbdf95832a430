//! Verified core of the tombola (Italian bingo) game: the pouch, the board,
//! the scoring rules, card generation and assignment, the game and client
//! registries, and the request logic of the HTTP API.

pub mod api;
pub mod board;
pub mod card;
pub mod client;
pub mod client_view;
pub mod clock;
pub mod config;
pub mod coverage;
pub mod defs;
pub mod extraction;
pub mod game;
pub mod layout;
pub mod logging;
pub mod player;
pub mod pouch;
mod rng;
pub mod prize;
pub mod score;
pub mod strmap;
pub mod tally;
pub mod terminal;
pub mod text;
