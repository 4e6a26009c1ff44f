//! The bail discipline: callbacks are asked in invocation order and the first
//! one that answers wins.

use crate::registration::{invocation_order, lemma_order_same_members, sort_by_stage, Registered};
use vstd::prelude::*;

verus! {

/// An extension point: the input its callbacks are handed and the output one
/// of them may produce.
pub trait Hook {
    type Input: Send + Sync;

    type Output;
}

/// A callback of a bail hook.
pub trait SyncBail<H: Hook> {
    /// The stage this callback registers with: zero unless it says otherwise.
    open spec fn stage_of(&self) -> i32 {
        0
    }

    /// Whether one run of this callback may turn the input `before` into
    /// `after` and answer `out`. A callback that says nothing may do anything.
    open spec fn may_run(&self, before: H::Input, after: H::Input, out: Option<H::Output>) -> bool {
        true
    }

    /// Whether this callback can be run on the input `input`.
    open spec fn ready_on(&self, input: H::Input) -> bool {
        true
    }

    /// Whether a run on the borrow `input` may answer `out`. The borrow
    /// carries the input as the run finds it and as the run leaves it. This
    /// is how a callback with a contract of its own, such as a closure,
    /// says what it does; one that says nothing allows everything.
    open spec fn allows(&self, input: &mut H::Input, out: Option<H::Output>) -> bool {
        true
    }

    /// Runs the callback on `input`; an answer ends the round.
    fn run(&self, input: &mut H::Input) -> (out: Option<H::Output>)
        requires
            self.ready_on(*old(input)),
        ensures
            self.may_run(*old(input), *final(input), out),
            exists|borrowed: &mut H::Input|
                *borrowed == *old(input) && *final(borrowed) == *final(input)
                    && #[trigger] self.allows(borrowed, out),
    ;

    /// The stage to register this callback under.
    fn stage(&self) -> (s: i32)
        ensures
            s == self.stage_of(),
    ;
}

/// A plain function or closure is a callback of stage zero. It is ready on
/// the inputs that its own contract accepts, and a run of it answers and
/// changes the input as that contract allows.
impl<H: Hook, T: Fn(&mut H::Input) -> Option<H::Output>> SyncBail<H> for T {
    open spec fn ready_on(&self, input: H::Input) -> bool {
        forall|borrowed: &mut H::Input|
            *borrowed == input ==> #[trigger] call_requires(*self, (borrowed,))
    }

    open spec fn allows(&self, input: &mut H::Input, out: Option<H::Output>) -> bool {
        call_ensures(*self, (input,), out)
    }

    fn run(&self, input: &mut H::Input) -> (out: Option<H::Output>) {
        let out = self(input);
        proof {
            let borrowed = choose|borrowed: &mut H::Input|
                *borrowed == *old(input) && *final(borrowed) == *input && #[trigger] call_ensures(
                    *self,
                    (borrowed,),
                    out,
                );
            assert(SyncBail::<H>::allows(self, borrowed, out));
        }
        out
    }

    fn stage(&self) -> (s: i32) {
        0
    }
}

/// A callback paired with a stage runs as the callback does and registers
/// under the stage of the pair.
impl<H: Hook, T: SyncBail<H>> SyncBail<H> for (T, i32) {
    open spec fn stage_of(&self) -> i32 {
        self.1
    }

    open spec fn may_run(&self, before: H::Input, after: H::Input, out: Option<H::Output>) -> bool {
        self.0.may_run(before, after, out)
    }

    open spec fn ready_on(&self, input: H::Input) -> bool {
        self.0.ready_on(input)
    }

    open spec fn allows(&self, input: &mut H::Input, out: Option<H::Output>) -> bool {
        self.0.allows(input, out)
    }

    fn run(&self, input: &mut H::Input) -> (out: Option<H::Output>) {
        let out = self.0.run(input);
        proof {
            let borrowed = choose|borrowed: &mut H::Input|
                *borrowed == *old(input) && *final(borrowed) == *input && #[trigger] SyncBail::<
                    H,
                >::allows(&self.0, borrowed, out);
            assert(SyncBail::<H>::allows(self, borrowed, out));
        }
        out
    }

    fn stage(&self) -> (s: i32) {
        self.1
    }
}

/// What a bail hook holds for each registration.
pub type BailEntry<H> = Registered<Box<dyn SyncBail<H>>>;

/// Asking `callbacks` from left to right may turn the input `before` into
/// `after` and answer `out`: every callback sees the input as the one before
/// it left it, the first answer given is `out` and ends the round, and `out`
/// is empty only when every callback was asked and none answered.
pub open spec fn first_answer<H: Hook>(
    callbacks: Seq<BailEntry<H>>,
    before: H::Input,
    after: H::Input,
    out: Option<H::Output>,
) -> bool
    decreases callbacks.len(),
{
    if callbacks.len() == 0 {
        after == before && out is None
    } else {
        exists|mid: H::Input, answer: Option<H::Output>|
            {
                &&& #[trigger] callbacks[0].callback.may_run(before, mid, answer)
                &&& if answer is Some {
                    after == mid && out == answer
                } else {
                    first_answer(callbacks.skip(1), mid, after, out)
                }
            }
    }
}

/// How a round goes on once a callback has run.
pub enum BailStep<O> {
    /// The callback answered: the round ends with its answer.
    Answered(O),
    /// The callback was silent: the callback at this place is asked next.
    Ask(usize),
    /// The callback was silent and it was the last: the round ends empty.
    Silent,
}

/// Decides how a round over `count` callbacks goes on when the callback at
/// `asked` has given `answer`. An answer ends the round at once, whatever
/// stands behind; silence passes the question on until no callback is left.
pub fn bail_step<O>(answer: Option<O>, asked: usize, count: usize) -> (step: BailStep<O>)
    ensures
        answer is Some ==> step == BailStep::Answered(answer.unwrap()),
        answer is None && asked + 1 < count ==> step == BailStep::<O>::Ask((asked + 1) as usize),
        answer is None && asked + 1 >= count ==> step == BailStep::<O>::Silent,
{
    match answer {
        Some(value) => BailStep::Answered(value),
        None => if count > 0 && asked < count - 1 {
            BailStep::Ask(asked + 1)
        } else {
            BailStep::Silent
        },
    }
}

/// A round that ends with an answer never reaches what stands behind the
/// callback that gave it: with any callbacks `later` behind `callbacks`, the
/// round ends the same way.
pub proof fn lemma_answer_ends_round<H: Hook>(
    callbacks: Seq<BailEntry<H>>,
    later: Seq<BailEntry<H>>,
    before: H::Input,
    after: H::Input,
    out: Option<H::Output>,
)
    requires
        first_answer(callbacks, before, after, out),
        out is Some,
    ensures
        first_answer(callbacks + later, before, after, out),
    decreases callbacks.len(),
{
    let (mid, answer): (H::Input, Option<H::Output>) = choose|
        mid: H::Input,
        answer: Option<H::Output>,
    |
        {
            &&& #[trigger] callbacks[0].callback.may_run(before, mid, answer)
            &&& if answer is Some {
                after == mid && out == answer
            } else {
                first_answer(callbacks.skip(1), mid, after, out)
            }
        };
    assert((callbacks + later)[0] == callbacks[0]);
    assert((callbacks + later).skip(1) =~= callbacks.skip(1) + later);
    if answer is None {
        lemma_answer_ends_round(callbacks.skip(1), later, mid, after, out);
    }
    assert((callbacks + later)[0].callback.may_run(before, mid, answer));
}

/// A round in which no callback answers asks every callback and answers
/// nothing: it ends as the round over `callbacks` followed by the round over
/// `later`.
pub proof fn lemma_silent_round_goes_on<H: Hook>(
    callbacks: Seq<BailEntry<H>>,
    later: Seq<BailEntry<H>>,
    before: H::Input,
    mid: H::Input,
    after: H::Input,
    out: Option<H::Output>,
)
    requires
        first_answer(callbacks, before, mid, None),
        first_answer(later, mid, after, out),
    ensures
        first_answer(callbacks + later, before, after, out),
    decreases callbacks.len(),
{
    if callbacks.len() == 0 {
        assert(callbacks + later =~= later);
    } else {
        let (seen, answer): (H::Input, Option<H::Output>) = choose|
            seen: H::Input,
            answer: Option<H::Output>,
        |
            {
                &&& #[trigger] callbacks[0].callback.may_run(before, seen, answer)
                &&& if answer is Some {
                    mid == seen && None::<H::Output> == answer
                } else {
                    first_answer(callbacks.skip(1), seen, mid, None)
                }
            };
        assert((callbacks + later)[0] == callbacks[0]);
        assert((callbacks + later).skip(1) =~= callbacks.skip(1) + later);
        lemma_silent_round_goes_on(callbacks.skip(1), later, seen, mid, after, out);
        assert((callbacks + later)[0].callback.may_run(before, seen, answer));
    }
}

/// The first callbacks of `callbacks` were asked one after the other:
/// `borrows[k]` is the borrow of the input that the callback at `k` ran on,
/// `left[k]` the input as that run left it, and `answers[k]` what it
/// answered. The first borrow holds `before`, each later one what the run
/// before it left.
pub open spec fn handed<H: Hook>(
    callbacks: Seq<BailEntry<H>>,
    borrows: Seq<&mut H::Input>,
    left: Seq<H::Input>,
    answers: Seq<Option<H::Output>>,
    before: H::Input,
) -> bool {
    &&& borrows.len() == left.len()
    &&& borrows.len() == answers.len()
    &&& borrows.len() <= callbacks.len()
    &&& forall|k: int|
        #![trigger borrows[k]]
        0 <= k < borrows.len() ==> callbacks[k].callback.allows(borrows[k], answers[k])
    &&& forall|k: int|
        0 <= k < borrows.len() ==> *(#[trigger] borrows[k]) == if k == 0 {
            before
        } else {
            left[k - 1]
        }
}

/// A round over `callbacks`, told through what each callback that was asked
/// was handed (see `handed`). Every answer but the last is empty, the last
/// is `out`, `after` is what the last run left, and `out` is empty only when
/// every callback was asked.
pub open spec fn asked<H: Hook>(
    callbacks: Seq<BailEntry<H>>,
    borrows: Seq<&mut H::Input>,
    left: Seq<H::Input>,
    answers: Seq<Option<H::Output>>,
    before: H::Input,
    after: H::Input,
    out: Option<H::Output>,
) -> bool {
    &&& handed(callbacks, borrows, left, answers, before)
    &&& forall|k: int| 0 <= k < answers.len() - 1 ==> (#[trigger] answers[k]) is None
    &&& after == if left.len() == 0 {
        before
    } else {
        left.last()
    }
    &&& out == if answers.len() == 0 {
        None
    } else {
        answers.last()
    }
    &&& out is None ==> borrows.len() == callbacks.len()
}

/// `hook` can be run on every input: what a hook collection asks of a
/// callback that is tapped into it.
pub open spec fn ready<H: Hook, T: SyncBail<H>>(hook: T) -> bool {
    forall|input: H::Input| #[trigger] hook.ready_on(input)
}

/// A plain function or closure that accepts every borrow is ready to be
/// tapped.
pub proof fn lemma_function_is_ready<H: Hook, T: Fn(&mut H::Input) -> Option<H::Output>>(f: T)
    requires
        forall|input: &mut H::Input| call_requires(f, (input,)),
    ensures
        ready::<H, T>(f),
{
    assert forall|input: H::Input| #[trigger] SyncBail::<H>::ready_on(&f, input) by {}
}

/// What being a callback means for a plain function or closure `f`: its
/// stage is zero, it is ready on the inputs that its own contract accepts,
/// and a run of it is allowed what its own contract allows.
pub proof fn lemma_function_as_callback<H: Hook, T: Fn(&mut H::Input) -> Option<H::Output>>(f: T)
    ensures
        SyncBail::<H>::stage_of(&f) == 0,
        forall|input: H::Input| #[trigger]
            SyncBail::<H>::ready_on(&f, input) == (forall|borrowed: &mut H::Input|
                *borrowed == input ==> #[trigger] call_requires(f, (borrowed,))),
        forall|borrowed: &mut H::Input, out: Option<H::Output>| #[trigger]
            SyncBail::<H>::allows(&f, borrowed, out) == call_ensures(f, (borrowed,), out),
{
}

/// What being a callback means for a callback paired with a stage: the
/// stage is that of the pair, and in all else the pair is as its callback.
pub proof fn lemma_pair_as_callback<H: Hook, T: SyncBail<H>>(hook: T, stage: i32)
    ensures
        SyncBail::<H>::stage_of(&(hook, stage)) == stage,
        forall|input: H::Input| #[trigger]
            SyncBail::<H>::ready_on(&(hook, stage), input) == hook.ready_on(input),
        forall|borrowed: &mut H::Input, out: Option<H::Output>| #[trigger]
            SyncBail::<H>::allows(&(hook, stage), borrowed, out) == hook.allows(borrowed, out),
        forall|before: H::Input, after: H::Input, out: Option<H::Output>| #[trigger]
            SyncBail::<H>::may_run(&(hook, stage), before, after, out) == hook.may_run(
                before,
                after,
                out,
            ),
        ready::<H, T>(hook) ==> ready::<H, (T, i32)>((hook, stage)),
{
    if ready::<H, T>(hook) {
        assert forall|input: H::Input| #[trigger]
            SyncBail::<H>::ready_on(&(hook, stage), input) by {
            assert(hook.ready_on(input));
        }
    }
}

/// `after` is `before` with `hook` registered last, under the stage it names.
pub open spec fn tapped<H: Hook, T: SyncBail<H>>(
    after: Seq<BailEntry<H>>,
    before: Seq<BailEntry<H>>,
    hook: T,
) -> bool {
    &&& after.len() == before.len() + 1
    &&& after.take(before.len() as int) == before
    &&& after[before.len() as int].stage == hook.stage_of()
    &&& forall|seen: H::Input, left: H::Input, out: Option<H::Output>|
        #[trigger] after[before.len() as int].callback.may_run(seen, left, out) == hook.may_run(
            seen,
            left,
            out,
        )
    &&& forall|borrowed: &mut H::Input, out: Option<H::Output>|
        #[trigger] after[before.len() as int].callback.allows(borrowed, out) == hook.allows(
            borrowed,
            out,
        )
}

/// The callbacks tapped into one extension point, asked under the bail
/// discipline.
#[verifier::reject_recursive_types(H)]
pub struct SyncBailHook<H: Hook> {
    entries: Vec<BailEntry<H>>,
}

impl<H: Hook> SyncBailHook<H> {
    /// Every registered callback can be run on every input.
    pub open spec fn wf(&self) -> bool {
        forall|i: int, input: H::Input|
            0 <= i < self@.len() ==> #[trigger] self@[i].callback.ready_on(input)
    }

    /// The registrations, in the order the collection holds them.
    pub closed spec fn view(&self) -> Seq<BailEntry<H>> {
        self.entries@
    }

    /// A hook with no callback.
    pub fn new() -> (hook: Self)
        ensures
            hook@ == Seq::<BailEntry<H>>::empty(),
            hook.wf(),
    {
        SyncBailHook { entries: Vec::new() }
    }

    /// Registers `hook` behind the registrations there are.
    pub fn tap(&mut self, hook: impl SyncBail<H> + 'static)
        requires
            old(self).wf(),
            ready::<H, _>(hook),
        ensures
            final(self).wf(),
            tapped(final(self)@, old(self)@, hook),
    {
        let stage = hook.stage();
        let callback: Box<dyn SyncBail<H>> = Box::new(hook);
        self.entries.push(Registered::new(callback, stage));
        assert(self.entries@.take(old(self).entries@.len() as int) =~= old(self).entries@);
        assert forall|i: int, input: H::Input| 0 <= i < self@.len() implies #[trigger] self@[i].callback.ready_on(
            input,
        ) by {
            if i < old(self)@.len() {
                assert(self@[i] == old(self)@[i]);
            } else {
                assert(hook.ready_on(input));
            }
        }
    }

    /// Brings the registrations into invocation order, then asks them in that
    /// order until one answers. The answer and the input are what the
    /// callbacks that were asked made of them, one after the other.
    pub fn call(&mut self, input: &mut H::Input) -> (out: Option<H::Output>)
        requires
            old(self).wf(),
        ensures
            final(self).wf(),
            invocation_order(final(self)@, old(self)@),
            final(self)@.len() == old(self)@.len(),
            first_answer(final(self)@, *old(input), *final(input), out),
            exists|
                borrows: Seq<&mut H::Input>,
                left: Seq<H::Input>,
                answers: Seq<Option<H::Output>>,
            |
                {
                    &&& forall|k: int|
                        0 <= k < borrows.len() ==> *final(#[trigger] borrows[k]) == left[k]
                    &&& #[trigger] asked(
                        final(self)@,
                        borrows,
                        left,
                        answers,
                        *old(input),
                        *final(input),
                        out,
                    )
                },
    {
        sort_by_stage(&mut self.entries);
        proof {
            lemma_order_same_members(self.entries@, old(self).entries@);
            assert forall|i: int, input: H::Input| 0 <= i < self@.len() implies #[trigger] self@[i].callback.ready_on(
                input,
            ) by {
                assert(self@.contains(self@[i]));
                assert(old(self)@.contains(self@[i]));
                let j = choose|j: int| 0 <= j < old(self)@.len() && old(self)@[j] == self@[i];
                assert(old(self)@[j].callback.ready_on(input));
            }
        }
        let ghost order = self.entries@;
        let ghost start = *input;
        let ghost mut left: Seq<H::Input> = Seq::empty();
        let ghost mut answers: Seq<Option<H::Output>> = Seq::empty();
        let n: usize = self.entries.len();
        let mut i: usize = 0;
        assert(order.skip(0) =~= order);
        assert(handed(order, Seq::<&mut H::Input>::empty(), left, answers, start));
        while i < n
            invariant
                i <= n,
                n == order.len(),
                self.entries@ == order,
                self.wf(),
                invocation_order(order, old(self)@),
                order.len() == old(self)@.len(),
                start == *old(input),
                forall|after: H::Input, out: Option<H::Output>|
                    #[trigger] first_answer(order.skip(i as int), *input, after, out)
                        ==> first_answer(order, start, after, out),
                left.len() == i,
                exists|borrows: Seq<&mut H::Input>|
                    {
                        &&& forall|k: int|
                            0 <= k < borrows.len() ==> *final(#[trigger] borrows[k]) == left[k]
                        &&& #[trigger] handed(order, borrows, left, answers, start)
                    },
                forall|k: int| 0 <= k < i ==> (#[trigger] answers[k]) is None,
                *input == if i == 0 {
                    start
                } else {
                    left[i - 1]
                },
            decreases n - i,
        {
            let ghost seen = *input;
            assert(self@[i as int].callback.ready_on(seen));
            let answer = self.entries[i].callback.run(input);
            let ghost given = answer;
            proof {
                assert(order.skip(i as int)[0] == order[i as int]);
                assert(order.skip(i as int).skip(1) =~= order.skip(i + 1));
                let borrowed = choose|borrowed: &mut H::Input|
                    *borrowed == seen && *final(borrowed) == *input
                        && #[trigger] order[i as int].callback.allows(borrowed, given);
                let so_far = choose|borrows: Seq<&mut H::Input>|
                    {
                        &&& forall|k: int|
                            0 <= k < borrows.len() ==> *final(#[trigger] borrows[k]) == left[k]
                        &&& #[trigger] handed(order, borrows, left, answers, start)
                    };
                let borrows = so_far.push(borrowed);
                left = left.push(*input);
                answers = answers.push(given);
                assert forall|k: int| 0 <= k < borrows.len() implies *final(#[trigger] borrows[k])
                    == left[k] by {
                    if k < i {
                        assert(borrows[k] == so_far[k]);
                    }
                }
                assert(handed(order, borrows, left, answers, start)) by {
                    assert forall|k: int| 0 <= k < borrows.len() implies order[k].callback.allows(
                        #[trigger] borrows[k],
                        answers[k],
                    ) && *borrows[k] == if k == 0 {
                        start
                    } else {
                        left[k - 1]
                    } by {
                        if k < i {
                            assert(borrows[k] == so_far[k]);
                        }
                    }
                }
                if given is Some {
                    assert(asked(order, borrows, left, answers, start, *input, given));
                } else {
                    assert forall|after: H::Input, out: Option<H::Output>|
                        #[trigger] first_answer(
                            order.skip(i + 1),
                            *input,
                            after,
                            out,
                        ) implies first_answer(order, start, after, out) by {
                        assert(first_answer(order.skip(i as int), seen, after, out));
                    }
                }
            }
            match bail_step(answer, i, n) {
                BailStep::Answered(value) => {
                    assert(first_answer(order.skip(i as int), seen, *input, given));
                    return Some(value);
                },
                BailStep::Ask(next) => {
                    i = next;
                },
                BailStep::Silent => {
                    i = n;
                },
            }
        }
        proof {
            assert(first_answer(order.skip(n as int), *input, *input, None));
            let borrows = choose|borrows: Seq<&mut H::Input>|
                {
                    &&& forall|k: int|
                        0 <= k < borrows.len() ==> *final(#[trigger] borrows[k]) == left[k]
                    &&& #[trigger] handed(order, borrows, left, answers, start)
                };
            assert(asked(order, borrows, left, answers, start, *input, None));
        }
        None
    }
}

impl<H: Hook> Default for SyncBailHook<H> {
    fn default() -> (hook: Self)
        ensures
            hook@ == Seq::<BailEntry<H>>::empty(),
            hook.wf(),
    {
        SyncBailHook::new()
    }
}

} // verus!
