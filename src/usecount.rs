//! A value wrapped with a count of how often it was used.
use vstd::prelude::*;

verus! {

pub struct UseCounter<T> {
    value: T,
    counter: u32,
}

impl<T> UseCounter<T> {
    /// The wrapped value.
    pub closed spec fn inner(&self) -> T {
        self.value
    }

    /// How often the value was used.
    pub closed spec fn uses(&self) -> nat {
        self.counter as nat
    }

    pub fn new(value: T) -> (r: UseCounter<T>)
        ensures
            r.inner() == value,
            r.uses() == 0,
    {
        UseCounter { value, counter: 0 }
    }

    /// How often the value was used so far.
    pub fn count(&self) -> (n: u32)
        ensures
            n == self.uses(),
    {
        self.counter
    }

    /// Uses the value: counts the use and hands out a reference to it.
    pub fn get(&mut self) -> (r: &T)
        requires
            old(self).uses() < u32::MAX,
        ensures
            *r == old(self).inner(),
            final(self).inner() == old(self).inner(),
            final(self).uses() == old(self).uses() + 1,
    {
        self.counter = self.counter + 1;
        &self.value
    }

    /// Uses the value mutably: counts the use and hands out a mutable
    /// reference to it.
    pub fn get_mut(&mut self) -> (r: &mut T)
        requires
            old(self).uses() < u32::MAX,
        ensures
            *r == old(self).inner(),
            final(self).uses() == old(self).uses() + 1,
            final(self).inner() == *final(r),
    {
        self.counter = self.counter + 1;
        &mut self.value
    }
}

} // verus!
