//! Registered callbacks and the order in which a hook invokes them.

use vstd::prelude::*;

verus! {

/// A callback as a hook collection holds it: the callback and the stage it was
/// registered with. A lower stage runs earlier.
pub struct Registered<C> {
    pub callback: C,
    pub stage: i32,
}

impl<C> Registered<C> {
    /// `callback`, registered under `stage`.
    pub fn new(callback: C, stage: i32) -> (r: Self)
        ensures
            r.callback == callback,
            r.stage == stage,
    {
        Registered { callback, stage }
    }
}

/// The stages of `s` never decrease from left to right.
pub open spec fn ascending<C>(s: Seq<Registered<C>>) -> bool {
    forall|i: int, j: int| 0 <= i < j < s.len() ==> s[i].stage <= s[j].stage
}

/// The registrations of `s` that carry `stage`, in the order they have in `s`.
pub open spec fn at_stage<C>(s: Seq<Registered<C>>, stage: i32) -> Seq<Registered<C>>
    decreases s.len(),
{
    if s.len() == 0 {
        Seq::empty()
    } else if s.last().stage == stage {
        at_stage(s.drop_last(), stage).push(s.last())
    } else {
        at_stage(s.drop_last(), stage)
    }
}

/// `after` is the invocation order of the registrations `before`: stages
/// ascend, and the registrations of each stage are those of `before`, in
/// registration order.
pub open spec fn invocation_order<C>(
    after: Seq<Registered<C>>,
    before: Seq<Registered<C>>,
) -> bool {
    &&& ascending(after)
    &&& forall|stage: i32| #[trigger] at_stage(after, stage) == at_stage(before, stage)
}

/// What registering `x` last does to the registrations of a stage.
pub proof fn lemma_at_stage_push<C>(s: Seq<Registered<C>>, x: Registered<C>, stage: i32)
    ensures
        at_stage(s.push(x), stage) == if x.stage == stage {
            at_stage(s, stage).push(x)
        } else {
            at_stage(s, stage)
        },
{
    assert(s.push(x).drop_last() =~= s);
}

/// The registrations of a stage in `a` followed by `b` are those in `a`
/// followed by those in `b`.
pub proof fn lemma_at_stage_concat<C>(a: Seq<Registered<C>>, b: Seq<Registered<C>>, stage: i32)
    ensures
        at_stage(a + b, stage) == at_stage(a, stage) + at_stage(b, stage),
    decreases b.len(),
{
    if b.len() == 0 {
        assert(a + b =~= a);
        assert(at_stage(a, stage) + at_stage(b, stage) =~= at_stage(a, stage));
    } else {
        lemma_at_stage_concat(a, b.drop_last(), stage);
        assert((a + b).drop_last() =~= a + b.drop_last());
        assert((a + b).last() == b.last());
        if b.last().stage == stage {
            assert(at_stage(a, stage) + at_stage(b.drop_last(), stage).push(b.last()) =~= (
            at_stage(a, stage) + at_stage(b.drop_last(), stage)).push(b.last()));
        }
    }
}

/// A stage that no registration carries has no registrations.
pub proof fn lemma_at_stage_absent<C>(s: Seq<Registered<C>>, stage: i32)
    requires
        forall|i: int| 0 <= i < s.len() ==> s[i].stage != stage,
    ensures
        at_stage(s, stage) == Seq::<Registered<C>>::empty(),
    decreases s.len(),
{
    if s.len() > 0 {
        lemma_at_stage_absent(s.drop_last(), stage);
    }
}

/// A stage's registrations are the registrations of the sequence that carry
/// the stage.
pub proof fn lemma_at_stage_contains<C>(s: Seq<Registered<C>>, stage: i32, x: Registered<C>)
    ensures
        at_stage(s, stage).contains(x) <==> s.contains(x) && x.stage == stage,
    decreases s.len(),
{
    if s.len() > 0 {
        let rest = s.drop_last();
        lemma_at_stage_contains(rest, stage, x);
        assert(s =~= rest.push(s.last()));
        lemma_at_stage_push(rest, s.last(), stage);
        lemma_push_contains(rest, s.last(), x);
        lemma_push_contains(at_stage(rest, stage), s.last(), x);
    }
}

proof fn lemma_push_contains<T>(s: Seq<T>, last: T, x: T)
    ensures
        s.push(last).contains(x) <==> s.contains(x) || x == last,
{
    if s.contains(x) {
        let i = choose|i: int| 0 <= i < s.len() && s[i] == x;
        assert(s.push(last)[i] == x);
    }
    if x == last {
        assert(s.push(last)[s.len() as int] == x);
    }
}

/// Ordering neither drops a registration nor invents one.
pub proof fn lemma_order_same_members<C>(after: Seq<Registered<C>>, before: Seq<Registered<C>>)
    requires
        invocation_order(after, before),
    ensures
        forall|x: Registered<C>| after.contains(x) <==> before.contains(x),
{
    assert forall|x: Registered<C>| after.contains(x) <==> before.contains(x) by {
        lemma_at_stage_contains(after, x.stage, x);
        lemma_at_stage_contains(before, x.stage, x);
        assert(at_stage(after, x.stage) == at_stage(before, x.stage));
    }
}

/// How often a registration occurs among those of a stage: as often as in
/// the whole sequence where the stage is its own, and never elsewhere.
proof fn lemma_at_stage_count<C>(s: Seq<Registered<C>>, stage: i32, x: Registered<C>)
    ensures
        at_stage(s, stage).to_multiset().count(x) == if x.stage == stage {
            s.to_multiset().count(x)
        } else {
            0
        },
    decreases s.len(),
{
    if s.len() == 0 {
        assert(at_stage(s, stage).to_multiset().count(x) == 0) by {
            at_stage(s, stage).to_multiset_ensures();
        }
        assert(s.to_multiset().count(x) == 0) by {
            s.to_multiset_ensures();
        }
    } else {
        let rest = s.drop_last();
        lemma_at_stage_count(rest, stage, x);
        assert(s =~= rest.push(s.last()));
        vstd::seq_lib::to_multiset_build(rest, s.last());
        vstd::seq_lib::to_multiset_build(at_stage(rest, stage), s.last());
    }
}

/// Ordering keeps every registration as often as it was registered.
pub proof fn lemma_order_is_permutation<C>(after: Seq<Registered<C>>, before: Seq<Registered<C>>)
    requires
        invocation_order(after, before),
    ensures
        after.to_multiset() == before.to_multiset(),
{
    assert forall|x: Registered<C>|
        after.to_multiset().count(x) == before.to_multiset().count(x) by {
        lemma_at_stage_count(after, x.stage, x);
        lemma_at_stage_count(before, x.stage, x);
        assert(at_stage(after, x.stage) == at_stage(before, x.stage));
    }
    assert(after.to_multiset() =~= before.to_multiset());
}

/// Two ascending sequences that agree on the registrations of every stage are
/// one and the same.
proof fn lemma_ascending_unique<C>(a: Seq<Registered<C>>, b: Seq<Registered<C>>)
    requires
        ascending(a),
        ascending(b),
        forall|stage: i32| #[trigger] at_stage(a, stage) == at_stage(b, stage),
    ensures
        a == b,
    decreases a.len(),
{
    if a.len() == 0 {
        if b.len() > 0 {
            assert(at_stage(a, b.last().stage) == at_stage(b, b.last().stage));
        }
        assert(a =~= b);
    } else {
        let ka = a.last().stage;
        assert(at_stage(a, ka) == at_stage(b, ka));
        assert(b.len() > 0);
        let kb = b.last().stage;
        assert(at_stage(a, kb) == at_stage(b, kb));
        assert(ka <= kb) by {
            assert(a.contains(a.last())) by {
                assert(a[a.len() - 1] == a.last());
            }
            lemma_at_stage_contains(a, ka, a.last());
            lemma_at_stage_contains(b, ka, a.last());
            let j = choose|j: int| 0 <= j < b.len() && b[j] == a.last();
            assert(b[j].stage <= b[b.len() - 1].stage);
        }
        assert(kb <= ka) by {
            assert(b.contains(b.last())) by {
                assert(b[b.len() - 1] == b.last());
            }
            lemma_at_stage_contains(b, kb, b.last());
            lemma_at_stage_contains(a, kb, b.last());
            let j = choose|j: int| 0 <= j < a.len() && a[j] == b.last();
            assert(a[j].stage <= a[a.len() - 1].stage);
        }
        let a0 = a.drop_last();
        let b0 = b.drop_last();
        let pa = at_stage(a0, ka);
        let pb = at_stage(b0, ka);
        assert(pa.push(a.last()) == pb.push(b.last()));
        assert(a.last() == b.last()) by {
            assert(pa.push(a.last()).last() == a.last());
            assert(pb.push(b.last()).last() == b.last());
        }
        assert(pa =~= pb) by {
            assert(pa.push(a.last()).drop_last() =~= pa);
            assert(pb.push(b.last()).drop_last() =~= pb);
        }
        assert forall|stage: i32| #[trigger] at_stage(a0, stage) == at_stage(b0, stage) by {
            assert(at_stage(a, stage) == at_stage(b, stage));
        }
        lemma_ascending_unique(a0, b0);
        assert(a =~= a0.push(a.last()));
        assert(b =~= b0.push(b.last()));
    }
}

/// A set of registrations has one invocation order and no other.
pub proof fn lemma_invocation_order_unique<C>(
    first: Seq<Registered<C>>,
    second: Seq<Registered<C>>,
    registered: Seq<Registered<C>>,
)
    requires
        invocation_order(first, registered),
        invocation_order(second, registered),
    ensures
        first == second,
{
    assert forall|stage: i32| #[trigger] at_stage(first, stage) == at_stage(second, stage) by {
        assert(at_stage(first, stage) == at_stage(registered, stage));
        assert(at_stage(second, stage) == at_stage(registered, stage));
    }
    lemma_ascending_unique(first, second);
}

/// Ordering what is in invocation order already changes nothing: a second
/// round invokes in the order of the first.
pub proof fn lemma_reordering_changes_nothing<C>(
    registered: Seq<Registered<C>>,
    first: Seq<Registered<C>>,
    second: Seq<Registered<C>>,
)
    requires
        invocation_order(first, registered),
        invocation_order(second, first),
    ensures
        second == first,
{
    lemma_ascending_unique(second, first);
}

/// In invocation order a registration of a lower stage stands before every
/// registration of a higher stage.
pub proof fn lemma_lower_stage_runs_first<C>(
    order: Seq<Registered<C>>,
    registered: Seq<Registered<C>>,
    i: int,
    j: int,
)
    requires
        invocation_order(order, registered),
        0 <= i < order.len(),
        0 <= j < order.len(),
        order[i].stage < order[j].stage,
    ensures
        i < j,
{
}

/// Putting `x` behind the last registration whose stage is not above its own
/// keeps the stages ascending and leaves every stage's registrations as they
/// were with `x` registered last.
proof fn lemma_insert_in_order<C>(s: Seq<Registered<C>>, x: Registered<C>, j: int)
    requires
        ascending(s),
        0 <= j <= s.len(),
        forall|t: int| 0 <= t < j ==> s[t].stage <= x.stage,
        forall|t: int| j <= t < s.len() ==> s[t].stage > x.stage,
    ensures
        ascending(s.insert(j, x)),
        forall|stage: i32| #[trigger]
            at_stage(s.insert(j, x), stage) == at_stage(s.push(x), stage),
{
    let head = s.take(j);
    let tail = s.skip(j);
    assert(s.insert(j, x) =~= head.push(x) + tail);
    assert(s =~= head + tail);
    assert forall|stage: i32| #[trigger]
        at_stage(s.insert(j, x), stage) == at_stage(s.push(x), stage) by {
        lemma_at_stage_concat(head.push(x), tail, stage);
        lemma_at_stage_concat(head, tail, stage);
        lemma_at_stage_push(head, x, stage);
        lemma_at_stage_push(s, x, stage);
        if x.stage == stage {
            lemma_at_stage_absent(tail, stage);
            assert(at_stage(head, stage).push(x) + Seq::<Registered<C>>::empty() =~= at_stage(
                head,
                stage,
            ).push(x));
            assert(at_stage(head, stage) + Seq::<Registered<C>>::empty() =~= at_stage(
                head,
                stage,
            ));
        }
    }
}

/// Brings `v` into invocation order: ascending by stage, registrations of one
/// stage in the order they had.
pub fn sort_by_stage<C>(v: &mut Vec<Registered<C>>)
    ensures
        invocation_order(final(v)@, old(v)@),
        final(v)@.len() == old(v)@.len(),
{
    let ghost before = v@;
    let n: usize = v.len();
    let mut i: usize = 0;
    assert(at_stage(v@.take(0), 0) == at_stage(before.take(0), 0));
    while i < n
        invariant
            i <= n,
            v@.len() == n,
            before.len() == n,
            ascending(v@.take(i as int)),
            forall|stage: i32| #[trigger]
                at_stage(v@.take(i as int), stage) == at_stage(before.take(i as int), stage),
            v@.skip(i as int) == before.skip(i as int),
        decreases n - i,
    {
        let ghost prev = v@;
        let ghost sorted = prev.take(i as int);
        let x = v.remove(i);
        let mut j: usize = i;
        while j > 0 && v[j - 1].stage > x.stage
            invariant
                j <= i,
                i < n,
                v@ == prev.remove(i as int),
                prev.len() == n,
                x == prev[i as int],
                forall|t: int| j <= t < i ==> v@[t].stage > x.stage,
            decreases j,
        {
            j -= 1;
        }
        let ghost rest = v@;
        v.insert(j, x);
        proof {
            assert(x == before.skip(i as int)[0]);
            assert forall|t: int| j <= t < sorted.len() implies sorted[t].stage > x.stage by {
                assert(rest[t] == sorted[t]);
            }
            assert forall|t: int| 0 <= t < j implies sorted[t].stage <= x.stage by {
                assert(sorted[j - 1].stage <= x.stage);
            }
            lemma_insert_in_order(sorted, x, j as int);
            assert(v@.take(i + 1) =~= sorted.insert(j as int, x));
            assert(before.take(i + 1) =~= before.take(i as int).push(x));
            assert forall|stage: i32| #[trigger]
                at_stage(v@.take(i + 1), stage) == at_stage(before.take(i + 1), stage) by {
                lemma_at_stage_push(sorted, x, stage);
                lemma_at_stage_push(before.take(i as int), x, stage);
                assert(at_stage(sorted, stage) == at_stage(before.take(i as int), stage));
            }
            assert forall|t: int| i < t < n implies #[trigger] v@[t] == before[t] by {
                assert(prev.skip(i as int)[t - i] == before.skip(i as int)[t - i]);
            }
            assert(v@.skip(i + 1) =~= before.skip(i + 1));
        }
        i += 1;
    }
    assert(v@.take(n as int) =~= v@);
    assert(before.take(n as int) =~= before);
}

} // verus!
