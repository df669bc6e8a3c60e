//! A solver for 9×9 Sudoku puzzles.
//!
//! A puzzle is read from text by [`game::parse`], solved by [`game::solve`]
//! and shown by [`render::render`]. Every function carries a contract that
//! Verus proves of its body.
//!
//! - [`board`] holds the grid and its layout: rows, columns, boxes, and what
//!   makes a board well formed, full, or free of duplicates.
//! - [`constraints`] says which symbols a cell may still take.
//! - [`search`] says what the backtracking search returns and what that
//!   result means: a completion of the board where there is one.
//! - [`game`] holds the functions that do the work.
//! - [`text`] is the grammar of the text form: white space, commas, numbers.
//! - [`input_parser`] reads square grids of any side from one to nine.
//! - [`render`] writes a board as text.
//! - [`sequences`] holds facts about ascending sequences and filtering.

pub mod board;
pub mod constraints;
pub mod game;
pub mod input_parser;
pub mod render;
pub mod search;
pub mod sequences;
pub mod text;
