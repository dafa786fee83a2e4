//! Reversi (Othello) rules engine with a small line-protocol agent on top.
pub mod board;
pub mod protocol;
pub mod render;
pub mod theorems;
