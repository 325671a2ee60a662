//! Gomoku (five in a row) on a 15 x 15 board: the rules of the game, the
//! tactical move search of the computer player, and the text handling of the
//! player that asks a language model for its move.
pub mod board;
pub mod ai;
pub mod game;
pub mod llm;
pub mod openrouter;
pub mod seq_facts;
pub mod text;
