//! The errors of a build.
use vstd::prelude::*;
use std::any::TypeId;

use crate::build::source::Position;

verus! {

#[verifier::external_type_specification]
#[verifier::external_body]
pub struct ExTypeId(TypeId);

/// An error of a build.
#[derive(Debug)]
pub enum Error {
    NoConsumers,
    NoMatches(Position),
    NoSourceResolversAvailable,
    NoSourceResolversAvailableFor(String),
    LuauError(mlua::Error),
    ProxyFailure(mlua::Error),
    ConversionError(TypeId, TypeId),
}

} // verus!
