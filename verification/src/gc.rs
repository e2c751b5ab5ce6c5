//! A cheap, clonable shared-ownership handle. Unlike an unchecked shared
//! mutable cell, this handle is read-only: a holder reads the value but
//! never mutates it through the handle.

use std::rc::Rc;
use vstd::prelude::*;

verus! {

/// Shared-ownership handle over a single value.
pub struct Gc<T> {
    pub rc: Rc<T>,
}

/// Relies on `Rc::clone`: the clone points to the same value.
#[verifier::external_body]
fn rc_dup<T>(v: &Rc<T>) -> (r: Rc<T>)
    ensures
        r == *v,
{
    Rc::clone(v)
}

impl<T> Gc<T> {
    /// The value the handle shares.
    pub open spec fn value(self) -> T {
        *self.rc
    }

    pub fn new(t: T) -> (s: Self)
        ensures
            s.value() == t,
    {
        Gc { rc: Rc::new(t) }
    }

    /// Read access to the shared value.
    pub fn get(&self) -> (r: &T)
        ensures
            *r == self.value(),
    {
        &self.rc
    }
}

impl<T> Clone for Gc<T> {
    fn clone(&self) -> (r: Self)
        ensures
            r == *self,
    {
        Gc { rc: rc_dup(&self.rc) }
    }
}

} // verus!
