//! A bot for a turn-based arena game: heroes that gather, hunt and shoot on a
//! grid with walls.
//!
//! The library decides; it neither reads nor sends anything. `bot::Bot` takes
//! in one message of the game server at a time and returns what to send.
pub mod grid;
pub mod protocol;
pub mod route;
pub mod sight;
pub mod tactics;
pub mod targets;
pub mod json;
pub mod message;
pub mod turn;
pub mod bot;
