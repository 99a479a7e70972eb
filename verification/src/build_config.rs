//! The configuration of a build as a whole.
use vstd::prelude::*;

use crate::modification::Modification;
use crate::strmap::StrMap;

verus! {

/// The modifications of a build, and its sources by name.
pub struct BuildConfig {
    pub mods: Vec<Modification>,
    pub source: StrMap<String>,
}

} // verus!
