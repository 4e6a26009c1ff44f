//! Bail hooks chosen by a key that the caller knows only at run time.

use crate::bail::{asked, first_answer, ready, tapped, BailEntry, Hook, SyncBail, SyncBailHook};
use crate::registration::invocation_order;
use vstd::prelude::*;

verus! {

/// One key and the bail hook that belongs to it.
#[verifier::reject_recursive_types(H)]
struct Keyed<H: Hook> {
    key: String,
    hook: SyncBailHook<H>,
}

/// The registrations under `key`, if a slot carries the key.
spec fn lookup<H: Hook>(slots: Seq<Keyed<H>>, key: Seq<char>) -> Option<
    Seq<BailEntry<H>>,
>
    decreases slots.len(),
{
    if slots.len() == 0 {
        None
    } else if slots.last().key@ == key {
        Some(slots.last().hook@)
    } else {
        lookup(slots.drop_last(), key)
    }
}

proof fn lemma_lookup_found<H: Hook>(slots: Seq<Keyed<H>>, key: Seq<char>, i: int)
    requires
        0 <= i < slots.len(),
        slots[i].key@ == key,
        forall|t: int| i < t < slots.len() ==> slots[t].key@ != key,
    ensures
        lookup(slots, key) == Some(slots[i].hook@),
    decreases slots.len(),
{
    if i < slots.len() - 1 {
        lemma_lookup_found(slots.drop_last(), key, i);
    }
}

proof fn lemma_lookup_missing<H: Hook>(slots: Seq<Keyed<H>>, key: Seq<char>)
    requires
        forall|t: int| 0 <= t < slots.len() ==> slots[t].key@ != key,
    ensures
        lookup(slots, key) is None,
    decreases slots.len(),
{
    if slots.len() > 0 {
        lemma_lookup_missing(slots.drop_last(), key);
    }
}

proof fn lemma_lookup_elsewhere<H: Hook>(a: Seq<Keyed<H>>, b: Seq<Keyed<H>>, key: Seq<char>)
    requires
        a.len() == b.len(),
        forall|t: int| 0 <= t < a.len() ==> a[t].key@ == b[t].key@,
        forall|t: int| 0 <= t < a.len() && a[t].key@ == key ==> a[t].hook@ == b[t].hook@,
    ensures
        lookup(a, key) == lookup(b, key),
    decreases a.len(),
{
    if a.len() > 0 {
        lemma_lookup_elsewhere(a.drop_last(), b.drop_last(), key);
    }
}

/// Independent bail hooks, one for each key that was tapped.
#[verifier::reject_recursive_types(H)]
pub struct SyncBailHookMap<H: Hook> {
    slots: Vec<Keyed<H>>,
}

impl<H: Hook> SyncBailHookMap<H> {
    /// For each key that was tapped, its registrations in the order its hook
    /// holds them.
    pub closed spec fn view(&self) -> Map<Seq<char>, Seq<BailEntry<H>>> {
        Map::new(
            |key: Seq<char>| lookup(self.slots@, key) is Some,
            |key: Seq<char>| lookup(self.slots@, key).unwrap(),
        )
    }

    /// Every callback under every key can be run on every input.
    pub closed spec fn wf(&self) -> bool {
        forall|i: int| 0 <= i < self.slots@.len() ==> (#[trigger] self.slots@[i]).hook.wf()
    }

    /// A map with no key.
    pub fn new() -> (hooks: Self)
        ensures
            hooks@ == Map::<Seq<char>, Seq<BailEntry<H>>>::empty(),
            hooks.wf(),
    {
        let hooks = SyncBailHookMap { slots: Vec::new() };
        assert(hooks@ =~= Map::<Seq<char>, Seq<BailEntry<H>>>::empty());
        hooks
    }

    /// The slot that answers for `key`.
    fn position(&self, key: &String) -> (found: Option<usize>)
        ensures
            match found {
                Some(i) => i < self.slots@.len() && lookup(self.slots@, key@) == Some(
                    self.slots@[i as int].hook@,
                ) && self.slots@[i as int].key@ == key@ && forall|t: int|
                    i < t < self.slots@.len() ==> self.slots@[t].key@ != key@,
                None => lookup(self.slots@, key@) is None,
            },
    {
        let mut i: usize = self.slots.len();
        while i > 0
            invariant
                i <= self.slots@.len(),
                forall|t: int| i <= t < self.slots@.len() ==> self.slots@[t].key@ != key@,
            decreases i,
        {
            i -= 1;
            if self.slots[i].key == *key {
                proof {
                    lemma_lookup_found(self.slots@, key@, i as int);
                }
                return Some(i);
            }
        }
        proof {
            lemma_lookup_missing(self.slots@, key@);
        }
        None
    }

    /// Registers `hook` under `key`, behind the registrations the key has. The
    /// first tap of a key makes its hook.
    pub fn tap(&mut self, key: String, hook: impl SyncBail<H> + 'static)
        requires
            old(self).wf(),
            ready::<H, _>(hook),
        ensures
            final(self).wf(),
            final(self)@.dom() == old(self)@.dom().insert(key@),
            forall|other: Seq<char>|
                other != key@ && old(self)@.contains_key(other) ==> final(self)@[other] == old(
                    self,
                )@[other],
            tapped(
                final(self)@[key@],
                if old(self)@.contains_key(key@) {
                    old(self)@[key@]
                } else {
                    Seq::empty()
                },
                hook,
            ),
    {
        let found = self.position(&key);
        let ghost before = self.slots@;
        match found {
            Some(i) => {
                let mut slot = self.slots.remove(i);
                slot.hook.tap(hook);
                self.slots.insert(i, slot);
                proof {
                    assert forall|t: int| 0 <= t < before.len() implies self.slots@[t].key@
                        == before[t].key@ by {}
                    lemma_lookup_found(self.slots@, key@, i as int);
                    assert forall|other: Seq<char>| other != key@ implies lookup(
                        self.slots@,
                        other,
                    ) == lookup(before, other) by {
                        lemma_lookup_elsewhere(self.slots@, before, other);
                    }
                }
            },
            None => {
                let mut fresh = SyncBailHook::new();
                fresh.tap(hook);
                self.slots.push(Keyed { key, hook: fresh });
                proof {
                    assert(self.slots@.drop_last() =~= before);
                }
            },
        }
        assert(self@.dom() =~= old(self)@.dom().insert(key@));
    }

    /// Asks the hook of `key`, as `SyncBailHook::call` does. A key that was
    /// never tapped answers nothing and touches nothing.
    pub fn call(&mut self, key: &str, input: &mut H::Input) -> (out: Option<H::Output>)
        requires
            old(self).wf(),
        ensures
            final(self).wf(),
            final(self)@.dom() == old(self)@.dom(),
            forall|other: Seq<char>|
                other != key@ && old(self)@.contains_key(other) ==> final(self)@[other] == old(
                    self,
                )@[other],
            old(self)@.contains_key(key@) ==> invocation_order(
                final(self)@[key@],
                old(self)@[key@],
            ) && first_answer(final(self)@[key@], *old(input), *final(input), out),
            old(self)@.contains_key(key@) ==> exists|
                borrows: Seq<&mut H::Input>,
                left: Seq<H::Input>,
                answers: Seq<Option<H::Output>>,
            |
                {
                    &&& forall|k: int|
                        0 <= k < borrows.len() ==> *final(#[trigger] borrows[k]) == left[k]
                    &&& #[trigger] asked(
                        final(self)@[key@],
                        borrows,
                        left,
                        answers,
                        *old(input),
                        *final(input),
                        out,
                    )
                },
            !old(self)@.contains_key(key@) ==> out is None && *final(input) == *old(input)
                && final(self)@ == old(self)@,
    {
        let owned = key.to_owned();
        let found = self.position(&owned);
        let ghost before = self.slots@;
        match found {
            Some(i) => {
                let mut slot = self.slots.remove(i);
                let out = slot.hook.call(input);
                let ghost order = slot.hook@;
                self.slots.insert(i, slot);
                proof {
                    let (borrows, left, answers) = choose|
                        borrows: Seq<&mut H::Input>,
                        left: Seq<H::Input>,
                        answers: Seq<Option<H::Output>>,
                    |
                        {
                            &&& forall|k: int|
                                0 <= k < borrows.len() ==> *final(#[trigger] borrows[k]) == left[k]
                            &&& #[trigger] asked(
                                order,
                                borrows,
                                left,
                                answers,
                                *old(input),
                                *input,
                                out,
                            )
                        };
                    assert forall|t: int| 0 <= t < before.len() implies self.slots@[t].key@
                        == before[t].key@ by {}
                    lemma_lookup_found(self.slots@, key@, i as int);
                    assert forall|other: Seq<char>| other != key@ implies lookup(
                        self.slots@,
                        other,
                    ) == lookup(before, other) by {
                        lemma_lookup_elsewhere(self.slots@, before, other);
                    }
                    assert(self@.dom() =~= old(self)@.dom());
                    assert(asked(self@[key@], borrows, left, answers, *old(input), *input, out));
                }
                out
            },
            None => {
                assert(self@ =~= old(self)@);
                None
            },
        }
    }
}

impl<H: Hook> Default for SyncBailHookMap<H> {
    fn default() -> (hooks: Self)
        ensures
            hooks@ == Map::<Seq<char>, Seq<BailEntry<H>>>::empty(),
            hooks.wf(),
    {
        SyncBailHookMap::new()
    }
}

} // verus!
