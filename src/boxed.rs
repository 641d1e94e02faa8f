use vstd::prelude::*;

verus! {

/// A value held behind an indirection, so that a type may contain values of
/// itself.
pub struct Boxed<T> {
    inner: Box<T>,
}

impl<T> Boxed<T> {
    pub closed spec fn value(&self) -> T {
        *self.inner
    }

    pub fn new(t: T) -> (r: Boxed<T>)
        ensures
            r.value() == t,
    {
        Boxed { inner: Box::new(t) }
    }

    /// The held value.
    pub fn get(&self) -> (r: &T)
        ensures
            *r == self.value(),
    {
        &self.inner
    }

    /// The held value, taken out.
    pub fn into_inner(self) -> (r: T)
        ensures
            r == self.value(),
    {
        *self.inner
    }
}

} // verus!
