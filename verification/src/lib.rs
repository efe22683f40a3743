//! A cursor-addressable, two-dimensional text buffer.
//!
//! The buffer stores its text as a flat sequence of Unicode scalar values
//! together with a derived line index, and exposes every location as a
//! `(line, column)` pair measured in codepoints. `Core` owns the text, the
//! line index and the cursor, and keeps the three consistent across every
//! insertion and deletion; `Editor` composes the primitives of `Core` into
//! named editing operations.

pub mod classify;
pub mod editor;
pub mod editor_core;
pub mod model;
pub mod position;
pub mod strings;
