//! Building: configurations, the intermediate stage and its errors.
pub mod error;
pub mod intermediate;
pub mod source;

use vstd::prelude::*;

use crate::modification::Modification;

verus! {

/// The modifications a build runs with.
pub struct Config {
    pub mods: Vec<Modification>,
}

} // verus!
