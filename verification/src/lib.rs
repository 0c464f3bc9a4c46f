//! FreeCell game engine.
//!
//! Deals are compatible with the classic Microsoft FreeCell numbering, so
//! `Game::deal(1)` produces the same layout as "Game #1" in Microsoft's
//! Windows game.
pub mod card;

pub use card::{parse_move, Card, Loc, Suit};
pub mod state;
pub use state::{GameState, MoveError};
pub mod deal;
pub mod game;
pub use game::Game;
pub mod action;
pub use action::{reduce, reduce_in_place, replay, Action, ActionError};
mod keyset;
pub mod solver;
pub mod analysis;
pub mod stats;
pub mod store;
pub use store::Store;
pub mod tui_board;
pub mod command;
pub mod board_text;
pub mod winnability;
