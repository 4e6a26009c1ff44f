//! The series discipline: every callback runs, one at a time, in invocation
//! order. The hook decides the order; whoever drives it runs each callback to
//! its end before asking for the next.

use crate::registration::{invocation_order, sort_by_stage, Registered};
use vstd::prelude::*;

verus! {

/// The callbacks tapped into one extension point, run under the series
/// discipline.
pub struct AsyncSeriesHook<C> {
    entries: Vec<Registered<C>>,
}

impl<C> AsyncSeriesHook<C> {
    /// The registrations, in the order the collection holds them.
    pub closed spec fn view(&self) -> Seq<Registered<C>> {
        self.entries@
    }

    /// A hook with no callback.
    pub fn new() -> (hook: Self)
        ensures
            hook@ == Seq::<Registered<C>>::empty(),
    {
        AsyncSeriesHook { entries: Vec::new() }
    }

    /// Registers `callback` under `stage`, behind the registrations there are.
    pub fn tap(&mut self, callback: C, stage: i32)
        ensures
            final(self)@ == old(self)@.push(Registered { callback, stage }),
    {
        self.entries.push(Registered::new(callback, stage));
    }

    /// Opens a round: brings the registrations into invocation order and
    /// tells how many callbacks the round runs.
    pub fn call(&mut self) -> (count: usize)
        ensures
            invocation_order(final(self)@, old(self)@),
            final(self)@.len() == old(self)@.len(),
            count == final(self)@.len(),
    {
        sort_by_stage(&mut self.entries);
        self.entries.len()
    }

    /// The callback to run once the first `done` callbacks of the round have
    /// run to their end, or nothing when the round is over. No callback is
    /// passed over and none ends the round early.
    pub fn next(&self, done: usize) -> (callback: Option<&C>)
        ensures
            done < self@.len() ==> callback == Some(&self@[done as int].callback),
            done >= self@.len() ==> callback is None,
    {
        if done < self.entries.len() {
            Some(&self.entries[done].callback)
        } else {
            None
        }
    }
}

impl<C> Default for AsyncSeriesHook<C> {
    fn default() -> (hook: Self)
        ensures
            hook@ == Seq::<Registered<C>>::empty(),
    {
        AsyncSeriesHook::new()
    }
}

} // verus!
