//! A Wordle solver for five-letter Russian words.
//!
//! Words are packed into a `u32`, six bits per letter, the first letter in the
//! lowest bits. A letter is an index into the Russian alphabet (`0` is `А`,
//! `32` is `Я`).

pub mod bits;
pub mod dict;
pub mod feedback;
pub mod alphabet;
pub mod solver;
pub mod ui;
pub mod render;
