//! Small wrappers that let values travel alongside Lua data.
use vstd::prelude::*;
use std::cell::RefCell;
use std::rc::Rc;

verus! {

#[verifier::external_type_specification]
#[verifier::external_body]
#[verifier::reject_recursive_types(T)]
pub struct ExRefCell<T: ?Sized>(RefCell<T>);

/// Creates a `RefCell` holding `value` (`std::cell::RefCell::new`); nothing
/// is stated of the cell, whose contents Verus does not see.
pub assume_specification<T>[ RefCell::<T>::new ](value: T) -> RefCell<T>;

/// A Lua environment.
pub struct Glue(pub mlua::Lua);

impl std::ops::Deref for Glue {
    type Target = mlua::Lua;

    /// The environment itself.
    fn deref(&self) -> (r: &mlua::Lua)
        ensures
            *r == self.0,
    {
        &self.0
    }
}

/// A Lua environment behind a `RefCell`.
pub struct Gluea {
    glue: RefCell<Glue>,
}

impl Gluea {
    /// Wraps `lua`.
    pub fn new(lua: mlua::Lua) -> Self {
        Gluea { glue: RefCell::new(Glue(lua)) }
    }

    /// The cell the environment is kept in.
    pub closed spec fn cell(&self) -> RefCell<Glue> {
        self.glue
    }
}

impl std::ops::Deref for Gluea {
    type Target = RefCell<Glue>;

    /// The cell holding the environment.
    fn deref(&self) -> (r: &RefCell<Glue>)
        ensures
            *r == self.cell(),
    {
        &self.glue
    }
}

/// An optional value that is kept out of Lua's sight.
pub struct LuaHider<T>(Option<T>);

impl<T> LuaHider<T> {
    /// The value held, if any.
    pub closed spec fn held(&self) -> Option<T> {
        self.0
    }

    /// Hides `value`.
    pub fn new(value: T) -> (h: Self)
        ensures
            h.held() == Some(value),
    {
        LuaHider(Some(value))
    }

    /// The hidden value.  A hider that holds nothing cannot be peeked into.
    pub fn peek(&self) -> (r: Result<&T, mlua::Error>)
        requires
            self.held() is Some,
        ensures
            r matches Ok(v) && *v == self.held()->0,
    {
        Ok(self.0.as_ref().unwrap())
    }
}

/// A shared, immutable value.
pub struct LuaRc<T>(pub Rc<T>);

impl<T> LuaRc<T> {
    /// Shares `value`.
    pub fn new(value: T) -> (r: Self)
        ensures
            *r.0 == value,
    {
        LuaRc(Rc::new(value))
    }
}

impl<T> std::ops::Deref for LuaHider<T> {
    type Target = Option<T>;

    /// The value held, if any.
    fn deref(&self) -> (r: &Option<T>)
        ensures
            *r == self.held(),
    {
        &self.0
    }
}

impl<T> std::ops::Deref for LuaRc<T> {
    type Target = Rc<T>;

    /// The shared handle.
    fn deref(&self) -> (r: &Rc<T>)
        ensures
            *r == self.0,
    {
        &self.0
    }
}

impl<T> Clone for LuaRc<T> {
    /// Another handle on the same value.
    fn clone(&self) -> (r: Self)
        ensures
            r == *self,
    {
        LuaRc(self.0.clone())
    }
}

} // verus!
