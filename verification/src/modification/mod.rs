//! Modifications: Lua scripts that register chains of lexer rules.
pub mod capsule;
pub mod capture;
pub mod consumer;
pub mod gluea;

use vstd::prelude::*;

verus! {

#[verifier::external_type_specification]
#[verifier::external_body]
pub struct ExLua(mlua::Lua);

#[verifier::external_type_specification]
#[verifier::external_body]
pub struct ExLuaFunction(mlua::Function);

#[verifier::external_type_specification]
#[verifier::external_body]
pub struct ExLuaError(mlua::prelude::LuaError);

/// A named Lua environment into which a script has been loaded.
pub struct Modification {
    pub name: &'static str,
    pub lua: mlua::Lua,
}

} // verus!
