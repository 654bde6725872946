//! Pagination of scripture text.
//!
//! A composed book is a sequence of blocks of styled text. Once the host has
//! measured the runs of each block, the engine breaks them into lines,
//! justifies the lines and places them on pages of a fixed size, recording on
//! which page every verse begins.
//!
//! All lengths are fixed-point numbers held in `i64`, see [`units`].

pub mod units;
pub mod text;
pub mod style;
pub mod layout;
pub mod renderer;
pub mod inline;
pub mod words;
pub mod writer;
pub mod format;
pub mod typeset;
pub mod painter;
pub mod paint;
pub mod laws;
