//! Rules engine and search for Uisge, a two-player game on a 7x6 board.
//!
//! Every occupied cell must stay in one orthogonally connected group, a piece
//! that jumps changes its kind, and a player without a legal move loses.

pub mod bit_board_gen;
pub mod bit_utils;
pub mod constants;
pub mod gui;
pub mod move_gen;
pub mod piece_list;
pub mod search;
pub mod state;
pub mod valid_board_gen;
