//! The staged parallel discipline: callbacks that share a stage form a group
//! and run side by side; a group starts only when the one before it is done.
//! The hook decides the order and the groups; whoever drives it joins each
//! group before asking for the next.

use crate::registration::{ascending, invocation_order, sort_by_stage, Registered};
use vstd::prelude::*;

verus! {

/// `end` closes the group that opens at `start`: the longest run of
/// registrations from `start` on that share one stage.
pub open spec fn closes_group<C>(s: Seq<Registered<C>>, start: int, end: int) -> bool {
    &&& 0 <= start < end <= s.len()
    &&& forall|i: int| start <= i < end ==> (#[trigger] s[i]).stage == s[start].stage
    &&& end == s.len() || s[end].stage != s[start].stage
}

/// Where the group `g` of a round with the group ends `ends` opens.
pub open spec fn group_start(ends: Seq<usize>, g: int) -> int {
    if g == 0 {
        0
    } else {
        ends[g - 1] as int
    }
}

/// The group `g` under `ends` is a whole group of `s`.
pub open spec fn is_group<C>(s: Seq<Registered<C>>, ends: Seq<usize>, g: int) -> bool {
    closes_group(s, group_start(ends, g), ends[g] as int)
}

/// `ends` cuts `s` into its groups: one end for each group, from left to
/// right, the last one at the end of `s`.
pub open spec fn cuts_into_groups<C>(s: Seq<Registered<C>>, ends: Seq<usize>) -> bool {
    &&& forall|g: int| 0 <= g < ends.len() ==> #[trigger] is_group(s, ends, g)
    &&& group_start(ends, ends.len() as int) == s.len()
}

/// The callbacks tapped into one extension point, run under the staged
/// parallel discipline.
pub struct AsyncParallelHook<C> {
    entries: Vec<Registered<C>>,
}

impl<C> AsyncParallelHook<C> {
    /// The registrations, in the order the collection holds them.
    pub closed spec fn view(&self) -> Seq<Registered<C>> {
        self.entries@
    }

    /// A hook with no callback.
    pub fn new() -> (hook: Self)
        ensures
            hook@ == Seq::<Registered<C>>::empty(),
    {
        AsyncParallelHook { entries: Vec::new() }
    }

    /// Registers `callback` under `stage`, behind the registrations there are.
    pub fn tap(&mut self, callback: C, stage: i32)
        ensures
            final(self)@ == old(self)@.push(Registered { callback, stage }),
    {
        self.entries.push(Registered::new(callback, stage));
    }

    /// Opens a round: brings the registrations into invocation order and
    /// cuts them into groups. The result holds the end of each group.
    pub fn call(&mut self) -> (ends: Vec<usize>)
        ensures
            invocation_order(final(self)@, old(self)@),
            final(self)@.len() == old(self)@.len(),
            cuts_into_groups(final(self)@, ends@),
    {
        sort_by_stage(&mut self.entries);
        let n: usize = self.entries.len();
        let mut ends: Vec<usize> = Vec::new();
        let mut done: usize = 0;
        while done < n
            invariant
                self.entries@ == self@,
                n == self@.len(),
                done <= n,
                invocation_order(self@, old(self)@),
                self@.len() == old(self)@.len(),
                group_start(ends@, ends@.len() as int) == done,
                forall|g: int| 0 <= g < ends@.len() ==> #[trigger] is_group(self@, ends@, g),
            decreases n - done,
        {
            let end: usize = match self.next_group(done) {
                Some(end) => end,
                None => n,
            };
            let ghost before = ends@;
            ends.push(end);
            assert forall|g: int| 0 <= g < ends@.len() implies #[trigger] is_group(
                self@,
                ends@,
                g,
            ) by {
                if g < before.len() {
                    assert(is_group(self@, before, g));
                }
            }
            done = end;
        }
        ends
    }

    /// The end of the group to run once the first `done` callbacks of the
    /// round are done, or nothing when the round is over.
    pub fn next_group(&self, done: usize) -> (end: Option<usize>)
        ensures
            done < self@.len() ==> end is Some && closes_group(
                self@,
                done as int,
                end.unwrap() as int,
            ),
            done >= self@.len() ==> end is None,
    {
        let n: usize = self.entries.len();
        if done >= n {
            return None;
        }
        let stage: i32 = self.entries[done].stage;
        let mut end: usize = done + 1;
        while end < n && self.entries[end].stage == stage
            invariant
                done < end <= n,
                n == self@.len(),
                self.entries@ == self@,
                stage == self@[done as int].stage,
                forall|i: int| done <= i < end ==> (#[trigger] self@[i]).stage == stage,
            decreases n - end,
        {
            end += 1;
        }
        Some(end)
    }

    /// How many callbacks are registered.
    pub fn len(&self) -> (n: usize)
        ensures
            n == self@.len(),
    {
        self.entries.len()
    }

    /// The callback at `index` of the order the collection holds.
    pub fn get(&self, index: usize) -> (callback: Option<&C>)
        ensures
            index < self@.len() ==> callback == Some(&self@[index as int].callback),
            index >= self@.len() ==> callback is None,
    {
        if index < self.entries.len() {
            Some(&self.entries[index].callback)
        } else {
            None
        }
    }
}

impl<C> Default for AsyncParallelHook<C> {
    fn default() -> (hook: Self)
        ensures
            hook@ == Seq::<Registered<C>>::empty(),
    {
        AsyncParallelHook::new()
    }
}

/// Groups run stage by stage: of two groups of a round in invocation order,
/// the earlier one opens earlier and holds the lower stage.
pub proof fn lemma_groups_ascend<C>(s: Seq<Registered<C>>, ends: Seq<usize>, g: int, h: int)
    requires
        ascending(s),
        cuts_into_groups(s, ends),
        0 <= g < h < ends.len(),
    ensures
        group_start(ends, g) < group_start(ends, h) < s.len(),
        s[group_start(ends, g)].stage < s[group_start(ends, h)].stage,
    decreases h - g,
{
    assert(is_group(s, ends, g));
    assert(is_group(s, ends, h));
    assert(is_group(s, ends, h - 1));
    if h > g + 1 {
        lemma_groups_ascend(s, ends, g, h - 1);
    }
}

/// The groups of a round leave no callback out.
pub proof fn lemma_groups_cover<C>(s: Seq<Registered<C>>, ends: Seq<usize>, i: int)
    requires
        cuts_into_groups(s, ends),
        0 <= i < s.len(),
    ensures
        exists|g: int| 0 <= g < ends.len() && group_start(ends, g) <= i < #[trigger] ends[g],
{
    lemma_covered_up_to(s, ends, ends.len() as int, i);
}

proof fn lemma_covered_up_to<C>(s: Seq<Registered<C>>, ends: Seq<usize>, n: int, i: int)
    requires
        cuts_into_groups(s, ends),
        0 <= n <= ends.len(),
        0 <= i < group_start(ends, n),
    ensures
        exists|g: int| 0 <= g < n && group_start(ends, g) <= i < #[trigger] ends[g],
    decreases n,
{
    if n > 0 {
        assert(is_group(s, ends, n - 1));
        if i < group_start(ends, n - 1) {
            lemma_covered_up_to(s, ends, n - 1, i);
        } else {
            assert(group_start(ends, n - 1) <= i < ends[n - 1]);
        }
    }
}

} // verus!
