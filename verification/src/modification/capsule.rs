//! Whether a capsule of Lua data may still be used.
use vstd::prelude::*;

verus! {

/// What a capsule was filled from (`owner`), and whether the capsule may
/// still be opened: it may from the moment it is made until it is
/// invalidated.
pub struct Tour<O> {
    owner: O,
    stable: bool,
}

impl<O> Tour<O> {
    /// Whether the capsule may still be opened.
    pub closed spec fn stable(&self) -> bool {
        self.stable
    }

    /// What the capsule was filled from.
    pub closed spec fn owner_view(&self) -> O {
        self.owner
    }

    /// A tour of a capsule just filled from `owner`: it may be opened.
    pub fn new(owner: O) -> (t: Self)
        ensures
            t.stable(),
            t.owner_view() == owner,
    {
        Tour { owner, stable: true }
    }

    /// Makes the capsule unusable; what it was filled from is kept.
    pub fn invalidate(&mut self)
        ensures
            !final(self).stable(),
            final(self).owner_view() == old(self).owner_view(),
    {
        self.stable = false;
    }

    /// Whether the capsule may still be opened.
    pub fn is_stable(&self) -> (b: bool)
        ensures
            b == self.stable(),
    {
        self.stable
    }

    /// What the capsule was filled from; only a capsule that may still be
    /// opened gives it.
    pub fn owner(&self) -> (r: &O)
        requires
            self.stable(),
        ensures
            *r == self.owner_view(),
    {
        &self.owner
    }
}

impl<O: Clone> Clone for Tour<O> {
    /// A copy that may be opened exactly when this one may.
    fn clone(&self) -> (r: Self)
        ensures
            r.stable() == self.stable(),
    {
        Tour { owner: self.owner.clone(), stable: self.stable }
    }
}

} // verus!
