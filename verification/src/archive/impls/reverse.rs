//! A value wrapped for the queue of a learning session, and handed back unchanged.
use vstd::prelude::*;

verus! {

#[derive(Debug)]
pub struct Reverse<T>(T);

impl<T> Reverse<T> {
    pub closed spec fn inner(self) -> T {
        self.0
    }

    pub fn new(data: T) -> (r: Self)
        ensures
            r.inner() == data,
    {
        Reverse(data)
    }

    pub fn get_ref(&self) -> (r: &T)
        ensures
            *r == self.inner(),
    {
        &self.0
    }

    pub fn get_mut(&mut self) -> (r: &T)
        ensures
            *r == old(self).inner(),
            *final(self) == *old(self),
    {
        &self.0
    }

    pub fn get(self) -> (r: T)
        ensures
            r == self.inner(),
    {
        self.0
    }
}

} // verus!
