//! Ranking, protocol and screen logic of a file picker.

pub mod bytes;
pub mod frecency;
pub mod fuzzy;
pub mod listing;
pub mod number;
pub mod order;
mod parallel;
pub mod protocol;
pub mod rank;
pub mod score;
pub mod serve;
pub mod session;
pub mod text;
pub mod tui;
