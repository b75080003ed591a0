//! The standalone picker: its state, its keys and the frames it draws.

pub use crate::fuzzy::layout::{normalize_query_char, ru_to_en};

pub mod align;
pub mod app;
pub mod draw;
pub mod geometry;
pub mod highlight;
pub mod icons;
pub mod keys;
pub mod pane;
pub mod path;
pub mod probe;
pub mod settings;
pub mod theme;
pub mod width;
