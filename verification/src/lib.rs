//! The game of Go: the board, the rules of a move and what follows from them.
//!
//! [`go::BoardState`] holds a game and [`go::BoardState::try_play`] plays a move on it.
//! What a move does is stated in [`rules::play`] over the model of the board in
//! [`chain`], and [`laws`] proves what holds of every move and every game. The
//! remaining modules serve a program that plays the game: its modes and their
//! options, the board size as the options name it, the star points of a board and
//! the request to draw the screen again.

pub mod board_size;
pub mod chain;
pub mod event_loop;
pub mod game_controller;
pub mod game_mode;
pub mod go;
pub mod hoshi;
pub mod laws;
pub mod marks;
pub mod ogs_controller;
pub mod one_player_controller;
pub mod point;
pub mod rules;
pub mod two_player_controller;
