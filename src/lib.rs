//! Word-wrapping text layout inside a rectangular box, with no floating point.
//!
//! The tokenizer splits text into words, whitespace runs and line breaks; the
//! layout engine breaks those tokens into lines of a given width, aligns each
//! line and places every character on the pixel grid.
pub mod parser;
pub mod layout;
pub mod alignment;
pub mod cursor;
pub mod rendering;
