//! Order and conservation laws of the queue, stated over the sequence
//! view that the operations' contracts use: a dequeue takes the front of
//! `vals()` and leaves the rest, an enqueue in data mode appends at the
//! back.

use vstd::prelude::*;

verus! {

use crate::queue::MsQueue;

broadcast use vstd::seq_lib::group_to_multiset_ensures;

/// Conservation, enqueue half: appending a value adds exactly that value
/// to the multiset of held values, and disturbs nothing else.
pub proof fn lemma_push_conservation<T>(before: Seq<T>, after: Seq<T>, x: T)
    requires
        after == before.push(x),
    ensures
        after.to_multiset() == before.to_multiset().insert(x),
{
    assert(before.push(x).to_multiset() =~= before.to_multiset().insert(x));
}

/// Conservation, dequeue half: the values held before a dequeue are the
/// values held after it plus the value returned — nothing is lost or
/// duplicated.
pub proof fn lemma_pop_conservation<T>(before: Seq<T>, after: Seq<T>, x: T)
    requires
        before.len() > 0,
        x == before[0],
        after == before.drop_first(),
    ensures
        before.to_multiset() == after.to_multiset().insert(x),
{
    assert(before.remove(0) =~= before.drop_first());
    assert(before.remove(0).to_multiset() =~= before.to_multiset().remove(x));
    assert(before.contains(x));
    assert(before.to_multiset().count(x) > 0);
    assert(before.to_multiset() =~= after.to_multiset().insert(x)) by {
        assert(after.to_multiset() =~= before.to_multiset().remove(x));
    }
}

/// No spurious delivery: what a dequeue returns — the front of the held
/// values — was held by the queue, hence supplied by some enqueue.
pub proof fn lemma_no_spurious_delivery<T>(before: Seq<T>, x: T)
    requires
        before.len() > 0,
        x == before[0],
    ensures
        before.contains(x),
        before.to_multiset().count(x) > 0,
{
    assert(before.contains(x));
}

/// First-in-first-out, enqueue half: appending leaves every already-held
/// value at its place and puts the new value behind all of them. Values
/// enqueued earlier therefore sit at smaller positions.
pub proof fn lemma_push_preserves_order<T>(s: Seq<T>, x: T, i: int)
    requires
        0 <= i < s.len(),
    ensures
        s.push(x)[i] == s[i],
        s.push(x)[s.len() as int] == x,
{
}

/// First-in-first-out, dequeue half: after `k` dequeues the queue holds
/// the values from position `k` on, so the next dequeue returns the value
/// at position `k` — values leave in the order of their positions, which
/// is the order they were enqueued in.
pub proof fn lemma_fifo_order<T>(s: Seq<T>, k: int)
    requires
        0 <= k < s.len(),
    ensures
        s.skip(k)[0] == s[k],
        s.skip(k).drop_first() == s.skip(k + 1),
{
    assert(s.skip(k).drop_first() =~= s.skip(k + 1));
}

/// Progress: an enqueue completed while no consumer was waiting has
/// appended its value, so the queue then holds data and a following
/// `try_pop` is bound by its contract to return a value.
pub proof fn lemma_push_enables_pop<T>(pre: MsQueue<T>, post: MsQueue<T>, x: T)
    requires
        pre.waiting().len() == 0,
        post.vals() == pre.vals().push(x),
    ensures
        post.vals().len() > 0,
{
}

/// Mode uniformity, seen from outside: a queue never holds data and
/// waiting consumers at the same time.
pub proof fn lemma_mode_uniformity<T>(q: MsQueue<T>)
    ensures
        q.vals().len() == 0 || q.waiting().len() == 0,
{
    crate::queue::lemma_modes_exclusive(q);
}

} // verus!
