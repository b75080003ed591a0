//! Matching of queries against plain labels.

use vstd::prelude::*;

pub mod decode;
pub mod json;
pub mod layout;
pub mod rank;
pub mod vectors;

verus! {

/// The version of the weights that scores are computed with.
pub const WEIGHTS_VERSION: u32 = 1;

} // verus!
