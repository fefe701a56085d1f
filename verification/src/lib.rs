//! The decisions of an OGC API - Environmental Data Retrieval server over
//! gridded reanalysis: what a request asks for, which grid cells, levels and
//! times answer it, how they are read, and how the answer is laid out.
//!
//! Coordinates and data values are binary64 numbers. They are held here by
//! their bit patterns ([`double::Double`]), which is all that ordering,
//! selecting and placing them needs; sums, products and distances are worked
//! out by the caller and handed in.
pub mod api;
pub mod axis;
pub mod catalog;
pub mod cells;
pub mod clock;
pub mod config;
pub mod double;
pub mod edr;
pub mod error;
pub mod json;
pub mod names;
pub mod numerals;
pub mod store;
pub mod text;
pub mod toml_text;
