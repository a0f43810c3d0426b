//! A guard wrapper for data that only one of the two resolver modes may
//! touch: reading it in the wrong mode is a bug, so access demands that
//! the guard was built permissive.

use vstd::prelude::*;

verus! {

/// A value that must not be consulted when `panic_on_deref` is set.
pub struct Maybe<T> {
    inner: T,
    panic_on_deref: bool,
}

impl<T> Maybe<T> {
    /// The wrapped value.
    pub closed spec fn spec_inner(self) -> T {
        self.inner
    }

    /// Whether access is forbidden.
    pub closed spec fn spec_guarded(self) -> bool {
        self.panic_on_deref
    }

    /// Wraps a value; access is allowed exactly when `panic_on_deref`
    /// is false.
    pub fn new(inner: T, panic_on_deref: bool) -> (r: Maybe<T>)
        ensures
            r.spec_inner() == inner,
            r.spec_guarded() == panic_on_deref,
    {
        Maybe { inner, panic_on_deref }
    }

    /// Takes the value out; only for a permissive guard.
    pub fn into_iter(self) -> (r: T)
        requires
            !self.spec_guarded(),
        ensures
            r == self.spec_inner(),
    {
        self.inner
    }

    /// Reads the value; only for a permissive guard.
    pub fn get(&self) -> (r: &T)
        requires
            !self.spec_guarded(),
        ensures
            *r == self.spec_inner(),
    {
        &self.inner
    }
}

} // verus!
