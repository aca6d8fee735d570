//! The dual-mode queue itself.
//!
//! The representation is a singly-linked list threaded through an arena of
//! nodes (`nodes`, indices standing in for pointers), with a sentinel node
//! at the front: `head` names the sentinel, `tail` the last node. A
//! non-sentinel node carries either a value (data mode) or the id of a
//! waiting consumer (blocked mode); the whole reachable list is always in
//! one mode. A ghost sequence `chain` witnesses the list: it records the
//! indices from the sentinel to the true tail, which keeps the structure
//! provably finite and acyclic.

use vstd::prelude::*;

verus! {

use vstd::pervasive::VecAdditionalExecFns;

/// What a node carries. The sentinel's slot is never read as a value; an
/// explicit variant keeps that fact in the type rather than in
/// uninitialised memory.
enum Payload<T> {
    /// The anchor node at the front; its former contents are dead.
    Sentinel,
    /// A value waiting to be dequeued.
    Data(T),
    /// A request for data from the waiter with this id.
    Blocked(usize),
}

/// A list node: a payload and the arena index of the successor, if any.
struct Node<T> {
    payload: Payload<T>,
    next: Option<usize>,
}

/// A waiting consumer's record: a slot for the delivered value and a flag
/// that a producer raises once the slot is filled. The consumer re-checks
/// the flag after every wake, so spurious wakes are harmless.
struct Waiter<T> {
    data: Option<T>,
    ready: bool,
}

/// What a blocking dequeue attempt produced: either a value was available
/// at once, or a waiter was published and the caller must wait until
/// `waiter_ready` reports true, then collect the value with `waiter_take`.
pub enum PopAttempt<T> {
    Popped(T),
    Waiting(usize),
}

/// The dual-mode first-in-first-out queue.
pub struct MsQueue<T> {
    /// Node arena; a retired node's slot is `None`.
    nodes: Vec<Option<Node<T>>>,
    /// Index of the sentinel node.
    head: usize,
    /// Index of the last node of the list.
    tail: usize,
    /// Every waiter ever registered, by id; a waiter stays in place after
    /// it has been served, so ids are never reused.
    waiters: Vec<Waiter<T>>,
    /// Ghost witness: the indices of the list nodes, sentinel first.
    chain: Ghost<Seq<usize>>,
}

impl<T> Node<T> {
    /// Does this node carry a value?
    fn is_data(&self) -> (r: bool)
        ensures
            r == (self.payload is Data),
    {
        match &self.payload {
            Payload::Data(_) => true,
            _ => false,
        }
    }
}

impl<T> MsQueue<T> {
    /// The node at arena index `k` (meaningful only for live slots).
    spec fn node_at(self, k: int) -> Node<T> {
        self.nodes@[k]->Some_0
    }

    /// Structural integrity: `head` names a live node, the chain of
    /// `next` links from it is exactly the ghost `chain` (so the list is
    /// finite and acyclic), and `tail` is its last node.
    pub closed spec fn chain_ok(self) -> bool {
        let c = self.chain@;
        &&& c.len() >= 1
        &&& c[0] == self.head
        &&& c.last() == self.tail
        &&& forall|i: int| 0 <= i < c.len() ==> (#[trigger] c[i]) < self.nodes@.len()
        &&& forall|i: int| 0 <= i < c.len() ==> (#[trigger] self.nodes@[c[i] as int]) is Some
        &&& forall|i: int|
            0 <= i < c.len() - 1 ==> (#[trigger] self.node_at(c[i] as int).next) == Some(
                c[i + 1],
            )
        &&& self.node_at(c.last() as int).next is None
        &&& forall|i: int, j: int| 0 <= i < j < c.len() ==> #[trigger] c[i] != #[trigger] c[j]
    }

    /// Mode uniformity: the front node is the sentinel, and the
    /// non-sentinel nodes all carry the same kind of payload — all data,
    /// or all blocked requests.
    pub closed spec fn payloads_ok(self) -> bool {
        let c = self.chain@;
        &&& self.node_at(c[0] as int).payload is Sentinel
        &&& forall|i: int|
            1 <= i < c.len() ==> !((#[trigger] self.node_at(c[i] as int).payload) is Sentinel)
        &&& forall|i: int|
            1 <= i < c.len() ==> ((#[trigger] self.node_at(c[i] as int).payload) is Data
                <==> self.node_at(c[1] as int).payload is Data)
    }

    /// Waiter discipline: a blocked node names a registered waiter that is
    /// still unserved; no waiter is named twice; a waiter flagged ready
    /// always holds a value.
    pub closed spec fn waiters_ok(self) -> bool {
        let c = self.chain@;
        &&& forall|i: int|
            1 <= i < c.len() ==> ((#[trigger] self.node_at(c[i] as int).payload) matches
                Payload::Blocked(w) ==> w < self.waiters@.len() && !self.waiters@[w as int].ready
                && self.waiters@[w as int].data is None)
        &&& forall|i: int, j: int|
            1 <= i < j < c.len() && self.node_at(c[i] as int).payload is Blocked && (
            #[trigger] self.node_at(c[i] as int).payload->Blocked_0) == (
            #[trigger] self.node_at(c[j] as int).payload->Blocked_0) ==> !(self.node_at(
                c[j] as int,
            ).payload is Blocked)
        &&& forall|w: int|
            0 <= w < self.waiters@.len() ==> ((#[trigger] self.waiters@[w].ready)
                ==> self.waiters@[w].data is Some)
    }

    /// The queue invariant, re-established by every operation.
    pub closed spec fn wf(self) -> bool {
        &&& self.chain_ok()
        &&& self.payloads_ok()
        &&& self.waiters_ok()
    }

    /// The payloads of the non-sentinel nodes, front to back.
    spec fn rest(self) -> Seq<Payload<T>> {
        Seq::new(
            (self.chain@.len() - 1) as nat,
            |i: int| self.node_at(self.chain@[i + 1] as int).payload,
        )
    }

    /// Is the queue in data mode? An empty queue counts as either mode.
    spec fn data_mode(self) -> bool {
        self.rest().len() == 0 || self.rest()[0] is Data
    }

    /// The values held by the queue, front to back; empty in blocked mode.
    pub closed spec fn vals(self) -> Seq<T> {
        if self.data_mode() {
            self.rest().map_values(|p: Payload<T>| p->Data_0)
        } else {
            Seq::empty()
        }
    }

    /// The ids of the waiting consumers, front to back; empty in data
    /// mode.
    pub closed spec fn waiting(self) -> Seq<usize> {
        if self.data_mode() {
            Seq::empty()
        } else {
            self.rest().map_values(|p: Payload<T>| p->Blocked_0)
        }
    }

    /// How many waiters have ever been registered.
    pub closed spec fn num_waiters(self) -> int {
        self.waiters@.len() as int
    }

    /// Has waiter `w` been handed a value?
    pub closed spec fn waiter_is_ready(self, w: int) -> bool {
        self.waiters@[w].ready
    }

    /// The value delivered to waiter `w`, if any.
    pub closed spec fn waiter_value(self, w: int) -> Option<T> {
        self.waiters@[w].data
    }
}

/// The waiters of `pre` are untouched in `post` (new ones may have been
/// registered after them).
pub open spec fn waiters_preserved<T>(pre: MsQueue<T>, post: MsQueue<T>) -> bool {
    &&& post.num_waiters() >= pre.num_waiters()
    &&& forall|w: int|
        0 <= w < pre.num_waiters() ==> (#[trigger] post.waiter_is_ready(w))
            == pre.waiter_is_ready(w) && post.waiter_value(w) == pre.waiter_value(w)
}

/// The waiters of `pre` other than `x` are untouched in `post`.
pub open spec fn waiters_preserved_except<T>(pre: MsQueue<T>, post: MsQueue<T>, x: int) -> bool {
    &&& post.num_waiters() >= pre.num_waiters()
    &&& forall|w: int|
        0 <= w < pre.num_waiters() && w != x ==> (#[trigger] post.waiter_is_ready(w))
            == pre.waiter_is_ready(w) && post.waiter_value(w) == pre.waiter_value(w)
}

/// The effect of unlinking the first data node: the old sentinel `c[0]`
/// is retired, the data node `c[1]` becomes the new sentinel (its payload
/// slot now dead), and the queue's values lose their front element.
proof fn lemma_unlink_first<T>(pre: MsQueue<T>, post: MsQueue<T>, t: T)
    requires
        pre.wf(),
        pre.chain@.len() >= 2,
        pre.node_at(pre.chain@[1] as int).payload == Payload::Data(t),
        post.nodes@ == pre.nodes@.update(
            pre.chain@[1] as int,
            Some(
                Node {
                    payload: Payload::Sentinel,
                    next: pre.node_at(pre.chain@[1] as int).next,
                },
            ),
        ).update(pre.chain@[0] as int, None),
        post.head == pre.chain@[1],
        post.tail == pre.tail,
        post.waiters@ == pre.waiters@,
        post.chain@ == pre.chain@.drop_first(),
    ensures
        post.wf(),
        pre.vals().len() > 0,
        pre.vals()[0] == t,
        post.vals() == pre.vals().drop_first(),
        post.waiting() == pre.waiting(),
{
    let c = pre.chain@;
    let c2 = post.chain@;
    let h = c[0];
    let n1 = c[1];
    assert(h != n1);
    // The queue was in data mode with at least one value.
    assert(pre.rest()[0] == pre.node_at(n1 as int).payload);
    assert(pre.data_mode());
    assert(pre.vals() == pre.rest().map_values(|p: Payload<T>| p->Data_0));
    assert(pre.vals().len() == pre.rest().len());
    assert(pre.vals()[0] == t);
    // Chain arithmetic.
    assert(c2.len() == c.len() - 1);
    assert(forall|i: int| 0 <= i < c2.len() ==> #[trigger] c2[i] == c[i + 1]);
    // Which arena slots changed, and which chain entries are untouched.
    assert forall|i: int| 1 <= i < c2.len() implies c2[i] != h && c2[i] != n1 && post.nodes@[
        c2[i] as int
    ] == pre.nodes@[c2[i] as int] by {
        assert(c2[i] == c[i + 1]);
        assert(c[i + 1] != c[0]);
        assert(c[i + 1] != c[1]);
    }
    assert(post.nodes@[n1 as int] == Some(
        Node { payload: Payload::Sentinel::<T>, next: pre.node_at(n1 as int).next },
    ));
    // chain_ok.
    assert(c2[0] == post.head);
    assert(c2.last() == c.last());
    assert forall|i: int| 0 <= i < c2.len() implies (#[trigger] c2[i]) < post.nodes@.len()
        && post.nodes@[c2[i] as int] is Some by {
        assert(c2[i] == c[i + 1]);
        assert(c[i + 1] < pre.nodes@.len());
    }
    assert forall|i: int| 0 <= i < c2.len() - 1 implies (#[trigger] post.node_at(
        c2[i] as int,
    ).next) == Some(c2[i + 1]) by {
        if i == 0 {
            assert(pre.node_at(c[1] as int).next == Some(c[2]));
        } else {
            assert(post.node_at(c2[i] as int) == pre.node_at(c[i + 1] as int));
            assert(pre.node_at(c[i + 1] as int).next == Some(c[i + 2]));
        }
    }
    assert(post.node_at(c2.last() as int).next is None) by {
        if c2.len() == 1 {
            assert(c2.last() == n1);
            assert(n1 == c.last());
        } else {
            assert(c2.last() == c2[c2.len() - 1]);
            assert(post.node_at(c2.last() as int) == pre.node_at(c.last() as int));
        }
    }
    assert(forall|i: int, j: int|
        0 <= i < j < c2.len() ==> #[trigger] c2[i] != #[trigger] c2[j]);
    assert(post.chain_ok());
    // payloads_ok: everything behind the new sentinel is untouched and
    // was uniformly data.
    assert(post.node_at(c2[0] as int).payload is Sentinel);
    assert forall|i: int| 1 <= i < c2.len() implies (#[trigger] post.node_at(
        c2[i] as int,
    ).payload) == pre.node_at(c[i + 1] as int).payload && pre.node_at(
        c[i + 1] as int,
    ).payload is Data by {
        assert(post.nodes@[c2[i] as int] == pre.nodes@[c2[i] as int]);
        assert(pre.node_at(c[i + 1] as int).payload is Data <==> pre.node_at(
            c[1] as int,
        ).payload is Data);
    }
    assert(post.payloads_ok());
    // waiters_ok: no blocked nodes remain reachable, waiters untouched.
    assert(post.waiters_ok());
    // The views: the values lose their front, the waiting list stays
    // empty.
    assert(post.rest() =~= pre.rest().drop_first()) by {
        assert forall|i: int| 0 <= i < post.rest().len() implies post.rest()[i]
            == pre.rest().drop_first()[i] by {
            assert(post.rest()[i] == post.node_at(c2[i + 1] as int).payload);
            assert(pre.rest().drop_first()[i] == pre.rest()[i + 1]);
            assert(pre.rest()[i + 1] == pre.node_at(c[i + 2] as int).payload);
        }
    }
    assert(post.data_mode());
    assert(post.vals() =~= pre.vals().drop_first()) by {
        assert(post.vals().len() == pre.vals().drop_first().len());
        assert forall|i: int| 0 <= i < post.vals().len() implies post.vals()[i]
            == pre.vals().drop_first()[i] by {
            assert(post.vals()[i] == post.rest()[i]->Data_0);
            assert(pre.vals().drop_first()[i] == pre.vals()[i + 1]);
            assert(pre.vals()[i + 1] == pre.rest()[i + 1]->Data_0);
        }
    }
    assert(post.waiting() =~= pre.waiting());
}

/// The effect of linking a fresh node behind the current last node
/// `c.last()`: the chain grows by the new arena slot `idx`, and the new
/// payload joins the matching view at the back.
proof fn lemma_link_last<T>(pre: MsQueue<T>, post: MsQueue<T>, n: Node<T>, idx: usize)
    requires
        pre.wf(),
        n.next is None,
        !(n.payload is Sentinel),
        n.payload is Data ==> pre.waiting().len() == 0,
        n.payload matches Payload::Blocked(w) ==> pre.vals().len() == 0 && w
            < pre.waiters@.len() && !pre.waiters@[w as int].ready && pre.waiters@[w as int].data
            is None && !pre.waiting().contains(w),
        idx == pre.nodes@.len(),
        post.nodes@ == pre.nodes@.push(Some(n)).update(
            pre.chain@.last() as int,
            Some(
                Node {
                    payload: pre.node_at(pre.chain@.last() as int).payload,
                    next: Some(idx),
                },
            ),
        ),
        post.head == pre.head,
        post.tail == idx,
        post.waiters@ == pre.waiters@,
        post.chain@ == pre.chain@.push(idx),
    ensures
        post.wf(),
        n.payload is Data ==> post.vals() == pre.vals().push(n.payload->Data_0)
            && post.waiting() == pre.waiting(),
        n.payload is Blocked ==> post.waiting() == pre.waiting().push(n.payload->Blocked_0)
            && post.vals() == pre.vals(),
{
    let c = pre.chain@;
    let c2 = post.chain@;
    let last = c.last();
    assert(c.last() == c[c.len() - 1]);
    // The fresh slot is no chain member.
    assert(forall|i: int| 0 <= i < c.len() ==> (#[trigger] c[i]) != idx);
    // Untouched slots keep their nodes; the old last keeps its payload.
    assert forall|i: int| 0 <= i < c.len() - 1 implies c[i] != last && post.nodes@[c[i] as int]
        == pre.nodes@[c[i] as int] by {
        assert(c[i] != c[c.len() - 1]);
    }
    assert(post.node_at(last as int).payload == pre.node_at(last as int).payload);
    assert(post.node_at(last as int).next == Some(idx));
    assert(post.node_at(idx as int) == n);
    // chain_ok.
    assert(c2.len() == c.len() + 1);
    assert(forall|i: int| 0 <= i < c.len() ==> #[trigger] c2[i] == c[i]);
    assert(c2[0] == post.head);
    assert(c2.last() == idx == post.tail);
    assert forall|i: int| 0 <= i < c2.len() implies (#[trigger] c2[i]) < post.nodes@.len()
        && post.nodes@[c2[i] as int] is Some by {
        if i < c.len() {
            assert(c2[i] == c[i]);
        }
    }
    assert forall|i: int| 0 <= i < c2.len() - 1 implies (#[trigger] post.node_at(
        c2[i] as int,
    ).next) == Some(c2[i + 1]) by {
        if i < c.len() - 1 {
            assert(post.nodes@[c[i] as int] == pre.nodes@[c[i] as int]);
            assert(pre.node_at(c[i] as int).next == Some(c[i + 1]));
        } else {
            assert(c2[i] == last);
        }
    }
    assert(post.node_at(c2.last() as int).next is None);
    assert forall|i: int, j: int| 0 <= i < j < c2.len() implies #[trigger] c2[i]
        != #[trigger] c2[j] by {
        if j < c.len() {
            assert(c[i] != c[j]);
        } else {
            assert(c2[i] == c[i] && c[i] != idx);
        }
    }
    assert(post.chain_ok());
    // The payload sequence behind the sentinel grows by `n.payload`.
    assert(post.rest() =~= pre.rest().push(n.payload)) by {
        assert forall|i: int| 0 <= i < post.rest().len() implies post.rest()[i]
            == pre.rest().push(n.payload)[i] by {
            assert(post.rest()[i] == post.node_at(c2[i + 1] as int).payload);
            if i < c.len() - 1 {
                assert(pre.rest()[i] == pre.node_at(c[i + 1] as int).payload);
                assert(post.node_at(c[i + 1] as int).payload == pre.node_at(
                    c[i + 1] as int,
                ).payload);
            } else if i == c.len() - 1 {
                assert(c2[i + 1] == idx);
            }
        }
    }
    // payloads_ok: the sentinel is untouched (even when it is the old
    // last node, only its `next` changed), and uniformity extends to the
    // new node because its kind matches the queue's mode.
    assert(post.node_at(c2[0] as int).payload is Sentinel);
    if n.payload is Data {
        // A data node joins a data-mode (or empty) queue: were a blocked
        // node reachable, the waiting view would not be empty.
        if c.len() >= 2 {
            assert(pre.rest().len() > 0);
            if !pre.data_mode() {
                assert(pre.waiting().len() == pre.rest().len());
            }
            assert(pre.node_at(c[1] as int).payload is Data);
        }
    } else {
        // A blocked node joins a blocked-mode (or empty) queue: were a
        // data node reachable, the value view would not be empty.
        if c.len() >= 2 {
            assert(pre.rest().len() > 0);
            if pre.data_mode() {
                assert(pre.vals().len() == pre.rest().len());
            }
            assert(!(pre.node_at(c[1] as int).payload is Data));
        }
    }
    assert forall|i: int| 1 <= i < c2.len() implies !((#[trigger] post.node_at(
        c2[i] as int,
    ).payload) is Sentinel) && (post.node_at(c2[i] as int).payload is Data <==> post.node_at(
        c2[1] as int,
    ).payload is Data) by {
        assert(post.rest()[i - 1] == post.node_at(c2[i] as int).payload);
        assert(post.rest()[0] == post.node_at(c2[1] as int).payload);
        if i < c.len() {
            assert(pre.rest()[i - 1] == pre.node_at(c[i] as int).payload);
        }
    }
    assert(post.payloads_ok());
    // waiters_ok: the new node's waiter, if any, is fresh, unserved and
    // distinct from every reachable one.
    assert forall|i: int| 1 <= i < c2.len() implies ((#[trigger] post.node_at(
        c2[i] as int,
    ).payload) matches Payload::Blocked(w) ==> w < post.waiters@.len()
        && !post.waiters@[w as int].ready && post.waiters@[w as int].data is None) by {
        if i < c.len() {
            assert(post.node_at(c2[i] as int).payload == pre.node_at(c[i] as int).payload);
        }
    }
    assert forall|i: int, j: int|
        1 <= i < j < c2.len() && post.node_at(c2[i] as int).payload is Blocked && (
        #[trigger] post.node_at(c2[i] as int).payload->Blocked_0) == (#[trigger] post.node_at(
            c2[j] as int,
        ).payload->Blocked_0) implies !(post.node_at(c2[j] as int).payload is Blocked) by {
        if j < c.len() {
            assert(post.node_at(c2[i] as int).payload == pre.node_at(c[i] as int).payload);
            assert(post.node_at(c2[j] as int).payload == pre.node_at(c[j] as int).payload);
        } else if post.node_at(c2[j] as int).payload is Blocked && post.node_at(
            c2[i] as int,
        ).payload is Blocked {
            // the old node's waiter appears in the waiting view, the new
            // one's does not
            assert(post.node_at(c2[i] as int).payload == pre.node_at(c[i] as int).payload);
            assert(!pre.data_mode());
            assert(pre.waiting()[i - 1] == pre.rest()[i - 1]->Blocked_0);
            assert(pre.rest()[i - 1] == pre.node_at(c[i] as int).payload);
            assert(pre.waiting().contains(pre.node_at(c[i] as int).payload->Blocked_0));
        }
    }
    assert(post.waiters_ok());
    // The views.
    if n.payload is Data {
        assert(post.data_mode());
        assert(pre.data_mode());
        assert(post.vals() =~= pre.vals().push(n.payload->Data_0)) by {
            assert forall|i: int| 0 <= i < post.vals().len() implies post.vals()[i]
                == pre.vals().push(n.payload->Data_0)[i] by {
                assert(post.vals()[i] == post.rest()[i]->Data_0);
                if i < pre.rest().len() {
                    assert(pre.vals()[i] == pre.rest()[i]->Data_0);
                }
            }
        }
        assert(post.waiting() =~= pre.waiting());
    } else {
        assert(!post.data_mode());
        assert(post.waiting() =~= pre.waiting().push(n.payload->Blocked_0)) by {
            assert forall|i: int| 0 <= i < post.waiting().len() implies post.waiting()[i]
                == pre.waiting().push(n.payload->Blocked_0)[i] by {
                assert(post.waiting()[i] == post.rest()[i]->Blocked_0);
                if i < pre.rest().len() {
                    assert(!pre.data_mode());
                    assert(pre.waiting()[i] == pre.rest()[i]->Blocked_0);
                }
            }
        }
        assert(post.vals() =~= pre.vals());
    }
}

/// The effect of a hand-off: the first blocked node `c[1]` is unlinked
/// exactly as a data node would be, and its waiter — the first of the
/// waiting view — receives the value and is flagged ready.
proof fn lemma_handoff_first<T>(pre: MsQueue<T>, post: MsQueue<T>, t: T, w: usize)
    requires
        pre.wf(),
        pre.chain@.len() >= 2,
        pre.node_at(pre.chain@[1] as int).payload == Payload::<T>::Blocked(w),
        post.nodes@ == pre.nodes@.update(
            pre.chain@[1] as int,
            Some(
                Node {
                    payload: Payload::Sentinel,
                    next: pre.node_at(pre.chain@[1] as int).next,
                },
            ),
        ).update(pre.chain@[0] as int, None),
        post.head == pre.chain@[1],
        post.tail == pre.tail,
        post.waiters@ == pre.waiters@.update(
            w as int,
            Waiter { data: Some(t), ready: true },
        ),
        post.chain@ == pre.chain@.drop_first(),
    ensures
        post.wf(),
        w < pre.waiters@.len(),
        pre.vals().len() == 0,
        pre.waiting().len() > 0,
        pre.waiting()[0] == w,
        post.waiting() == pre.waiting().drop_first(),
        post.vals() == pre.vals(),
        post.num_waiters() == pre.num_waiters(),
        post.waiter_is_ready(w as int),
        post.waiter_value(w as int) == Some(t),
        waiters_preserved_except(pre, post, w as int),
{
    let c = pre.chain@;
    let c2 = post.chain@;
    let h = c[0];
    let n1 = c[1];
    assert(h != n1);
    // The queue was in blocked mode with at least one waiter.
    assert(pre.rest()[0] == pre.node_at(n1 as int).payload);
    assert(!pre.data_mode());
    assert(pre.vals() =~= Seq::<T>::empty());
    assert(pre.waiting() == pre.rest().map_values(|p: Payload<T>| p->Blocked_0));
    assert(pre.waiting().len() == pre.rest().len());
    assert(pre.waiting()[0] == w);
    assert(w < pre.waiters@.len());
    // Chain arithmetic and untouched slots, as for a data unlink.
    assert(c2.len() == c.len() - 1);
    assert(forall|i: int| 0 <= i < c2.len() ==> #[trigger] c2[i] == c[i + 1]);
    assert forall|i: int| 1 <= i < c2.len() implies c2[i] != h && c2[i] != n1 && post.nodes@[
        c2[i] as int
    ] == pre.nodes@[c2[i] as int] by {
        assert(c2[i] == c[i + 1]);
        assert(c[i + 1] != c[0]);
        assert(c[i + 1] != c[1]);
    }
    assert(post.nodes@[n1 as int] == Some(
        Node { payload: Payload::Sentinel::<T>, next: pre.node_at(n1 as int).next },
    ));
    // chain_ok.
    assert(c2[0] == post.head);
    assert(c2.last() == c.last());
    assert forall|i: int| 0 <= i < c2.len() implies (#[trigger] c2[i]) < post.nodes@.len()
        && post.nodes@[c2[i] as int] is Some by {
        assert(c2[i] == c[i + 1]);
        assert(c[i + 1] < pre.nodes@.len());
    }
    assert forall|i: int| 0 <= i < c2.len() - 1 implies (#[trigger] post.node_at(
        c2[i] as int,
    ).next) == Some(c2[i + 1]) by {
        if i == 0 {
            assert(pre.node_at(c[1] as int).next == Some(c[2]));
        } else {
            assert(post.node_at(c2[i] as int) == pre.node_at(c[i + 1] as int));
            assert(pre.node_at(c[i + 1] as int).next == Some(c[i + 2]));
        }
    }
    assert(post.node_at(c2.last() as int).next is None) by {
        if c2.len() == 1 {
            assert(c2.last() == n1);
            assert(n1 == c.last());
        } else {
            assert(c2.last() == c2[c2.len() - 1]);
            assert(post.node_at(c2.last() as int) == pre.node_at(c.last() as int));
        }
    }
    assert(forall|i: int, j: int|
        0 <= i < j < c2.len() ==> #[trigger] c2[i] != #[trigger] c2[j]);
    assert(post.chain_ok());
    // The remaining payloads are untouched, uniformly blocked.
    assert(post.rest() =~= pre.rest().drop_first()) by {
        assert forall|i: int| 0 <= i < post.rest().len() implies post.rest()[i]
            == pre.rest().drop_first()[i] by {
            assert(post.rest()[i] == post.node_at(c2[i + 1] as int).payload);
            assert(pre.rest().drop_first()[i] == pre.rest()[i + 1]);
            assert(pre.rest()[i + 1] == pre.node_at(c[i + 2] as int).payload);
        }
    }
    assert(post.node_at(c2[0] as int).payload is Sentinel);
    assert forall|i: int| 1 <= i < c2.len() implies (#[trigger] post.node_at(
        c2[i] as int,
    ).payload) == pre.node_at(c[i + 1] as int).payload && !(pre.node_at(
        c[i + 1] as int,
    ).payload is Data) && !(pre.node_at(c[i + 1] as int).payload is Sentinel) by {
        assert(post.nodes@[c2[i] as int] == pre.nodes@[c2[i] as int]);
        assert(pre.node_at(c[i + 1] as int).payload is Data <==> pre.node_at(
            c[1] as int,
        ).payload is Data);
    }
    assert(post.payloads_ok());
    // waiters_ok: the served waiter is no longer reachable — every
    // remaining blocked node names a different waiter, whose record is
    // untouched.
    assert forall|i: int| 1 <= i < c2.len() implies ((#[trigger] post.node_at(
        c2[i] as int,
    ).payload) matches Payload::Blocked(v) ==> v < post.waiters@.len()
        && !post.waiters@[v as int].ready && post.waiters@[v as int].data is None) by {
        if post.node_at(c2[i] as int).payload is Blocked {
            assert(post.node_at(c2[i] as int).payload == pre.node_at(c[i + 1] as int).payload);
            // distinctness of waiter ids along the old chain, at (1, i+1)
            assert(pre.node_at(c[1] as int).payload->Blocked_0 == w);
            assert(pre.node_at(c[i + 1] as int).payload->Blocked_0 != w);
        }
    }
    assert(post.waiters_ok());
    // The views.
    assert(post.waiting() =~= pre.waiting().drop_first()) by {
        if c2.len() >= 2 {
            assert(post.rest()[0] == pre.rest()[1]);
            assert(!post.data_mode());
        }
        assert forall|i: int| 0 <= i < post.waiting().len() implies post.waiting()[i]
            == pre.waiting().drop_first()[i] by {
            assert(post.waiting()[i] == post.rest()[i]->Blocked_0);
            assert(pre.waiting().drop_first()[i] == pre.waiting()[i + 1]);
            assert(pre.waiting()[i + 1] == pre.rest()[i + 1]->Blocked_0);
        }
    }
    assert(post.vals() =~= pre.vals());
}

/// Every id in the waiting view names a registered waiter.
proof fn lemma_waiting_ids_bounded<T>(q: MsQueue<T>)
    requires
        q.wf(),
    ensures
        forall|i: int|
            0 <= i < q.waiting().len() ==> (#[trigger] q.waiting()[i]) < q.waiters@.len(),
{
    if !q.data_mode() {
        assert forall|i: int| 0 <= i < q.waiting().len() implies (#[trigger] q.waiting()[i])
            < q.waiters@.len() by {
            let c = q.chain@;
            assert(q.waiting()[i] == q.rest()[i]->Blocked_0);
            assert(q.rest()[i] == q.node_at(c[i + 1] as int).payload);
            assert(q.rest()[0] == q.node_at(c[1] as int).payload);
            assert(q.node_at(c[i + 1] as int).payload is Data <==> q.node_at(
                c[1] as int,
            ).payload is Data);
            assert(!(q.node_at(c[i + 1] as int).payload is Sentinel));
            assert(q.node_at(c[i + 1] as int).payload is Blocked);
        }
    }
}

/// At most one of the two views is ever populated: held values and
/// waiting consumers exclude each other, the outward face of mode
/// uniformity.
pub proof fn lemma_modes_exclusive<T>(q: MsQueue<T>)
    ensures
        q.vals().len() == 0 || q.waiting().len() == 0,
{
}

/// The invariant that every operation re-establishes splits into the
/// structural part — the sentinel-fronted, finite, acyclic chain from
/// `head`, with `tail` its last node — mode uniformity over the
/// reachable payloads, and the waiter discipline.
pub proof fn lemma_invariant_parts<T>(q: MsQueue<T>)
    requires
        q.wf(),
    ensures
        q.chain_ok(),
        q.payloads_ok(),
        q.waiters_ok(),
{
}

impl<T> MsQueue<T> {
    /// Create a new, empty queue: a single sentinel node, with `head` and
    /// `tail` both naming it.
    pub fn new() -> (q: MsQueue<T>)
        ensures
            q.wf(),
            q.vals() == Seq::<T>::empty(),
            q.waiting() == Seq::<usize>::empty(),
            q.num_waiters() == 0,
    {
        let mut nodes: Vec<Option<Node<T>>> = Vec::new();
        nodes.push(Some(Node { payload: Payload::Sentinel, next: None }));
        let ghost c: Seq<usize> = seq![0usize];
        let q = MsQueue { nodes, head: 0, tail: 0, waiters: Vec::new(), chain: Ghost(c) };
        proof {
            assert(q.rest() =~= Seq::<Payload<T>>::empty());
            assert(q.vals() =~= Seq::<T>::empty());
            assert(q.waiting() =~= Seq::<usize>::empty());
        }
        q
    }

    /// Attempt to link the prepared node `n` behind the tail snapshot
    /// `onto`.
    ///
    /// If the snapshot has grown a successor it is stale: help by moving
    /// `tail` one step forward (best effort) and return ownership of `n`
    /// for a retry. Otherwise install `n` as the successor and advance
    /// `tail` to it. The node's payload kind must match the queue's mode,
    /// which is what the callers' mode check establishes.
    fn push_internal(&mut self, onto: usize, n: Node<T>) -> (r: Result<(), Node<T>>)
        requires
            old(self).wf(),
            old(self).chain@.contains(onto),
            n.next is None,
            !(n.payload is Sentinel),
            n.payload is Data ==> old(self).waiting().len() == 0,
            n.payload matches Payload::Blocked(w) ==> old(self).vals().len() == 0 && w < old(
                self,
            ).waiters@.len() && !old(self).waiters@[w as int].ready && old(
                self,
            ).waiters@[w as int].data is None && !old(self).waiting().contains(w),
        ensures
            final(self).wf(),
            final(self).waiters@ == old(self).waiters@,
            onto == old(self).tail ==> r is Ok,
            r is Ok ==> ({
                &&& n.payload is Data ==> final(self).vals() == old(self).vals().push(
                    n.payload->Data_0,
                ) && final(self).waiting() == old(self).waiting()
                &&& n.payload is Blocked ==> final(self).waiting() == old(self).waiting().push(
                    n.payload->Blocked_0,
                ) && final(self).vals() == old(self).vals()
            }),
            r matches Err(m) ==> (m == n && *final(self) == *old(self)),
    {
        proof {
            assert(self.chain@.contains(onto));
            let j = choose|j: int| 0 <= j < self.chain@.len() && self.chain@[j] == onto;
            assert(self.chain@[j] == onto);
        }
        let ghost pre = *self;
        let next_opt = match &self.nodes[onto] {
            Some(node) => node.next,
            None => None,
        };
        match next_opt {
            Some(nxt) => {
                // Stale snapshot: the true tail has no successor, so
                // `onto` is not it. Help by advancing `tail`, then hand
                // the node back for a retry.
                if self.tail == onto {
                    proof {
                        assert(self.chain@.last() == self.tail);
                        assert(self.node_at(self.chain@.last() as int).next is None);
                        assert(false);
                    }
                    self.tail = nxt;
                }
                Err(n)
            },
            None => {
                proof {
                    // only the last chain node lacks a successor
                    let j = choose|j: int|
                        0 <= j < self.chain@.len() && self.chain@[j] == onto;
                    if j < self.chain@.len() - 1 {
                        assert(self.node_at(self.chain@[j] as int).next == Some(
                            self.chain@[j + 1],
                        ));
                    }
                    assert(onto == self.chain@.last());
                }
                let idx = self.nodes.len();
                self.nodes.push(Some(n));
                let mut slot: Option<Node<T>> = None;
                self.nodes.set_and_swap(onto, &mut slot);
                match slot {
                    Some(old_node) => {
                        self.nodes.set(
                            onto,
                            Some(Node { payload: old_node.payload, next: Some(idx) }),
                        );
                    },
                    None => {
                        proof {
                            assert(false);  // the snapshot slot is live
                        }
                    },
                }
                if self.tail == onto {
                    self.tail = idx;
                }
                self.chain = Ghost(self.chain@.push(idx));
                proof {
                    assert(self.tail == idx);
                    assert(self.nodes@ =~= pre.nodes@.push(Some(n)).update(
                        pre.chain@.last() as int,
                        Some(
                            Node {
                                payload: pre.node_at(pre.chain@.last() as int).payload,
                                next: Some(idx),
                            },
                        ),
                    ));
                    lemma_link_last(pre, *self, n, idx);
                }
                Ok(())
            },
        }
    }

    /// Attempt to unlink the first data node.
    ///
    /// `Ok(None)` reports "no data": the list is empty or holds blocked
    /// requests. `Ok(Some(v))` unlinks the first data node, retires the
    /// old sentinel and makes the unlinked node the new sentinel; exactly
    /// one caller can take the value. The raced outcome `Err(())` of the
    /// unlinking compare-and-swap cannot arise with exclusive access, but
    /// the retry loops of the callers treat it all the same.
    fn pop_internal(&mut self) -> (r: Result<Option<T>, ()>)
        requires
            old(self).wf(),
        ensures
            final(self).wf(),
            r is Ok,
            old(self).vals().len() > 0 ==> ({
                &&& r matches Ok(Some(v)) && v == old(self).vals()[0]
                &&& final(self).vals() == old(self).vals().drop_first()
                &&& final(self).waiting() == old(self).waiting()
                &&& final(self).waiters@ == old(self).waiters@
            }),
            old(self).vals().len() == 0 ==> (r matches Ok(None) && *final(self) == *old(self)),
    {
        proof {
            assert(self.chain@[0] == self.head);
        }
        let head_idx = self.head;
        let next_opt = match &self.nodes[head_idx] {
            Some(node) => node.next,
            None => None,
        };
        match next_opt {
            None => {
                proof {
                    assert(self.chain@.len() == 1) by {
                        if self.chain@.len() > 1 {
                            assert(self.node_at(self.chain@[0] as int).next == Some(
                                self.chain@[1],
                            ));
                        }
                    }
                    assert(self.rest().len() == 0);
                }
                Ok(None)
            },
            Some(next_idx) => {
                proof {
                    assert(self.chain@.len() > 1);
                    assert(self.node_at(self.chain@[0] as int).next == Some(self.chain@[1]));
                    assert(next_idx == self.chain@[1]);
                    assert(self.rest()[0] == self.node_at(self.chain@[1] as int).payload);
                }
                let found_data = match &self.nodes[next_idx] {
                    Some(node) => node.is_data(),
                    None => false,
                };
                if !found_data {
                    proof {
                        assert(!self.data_mode());
                    }
                    Ok(None)
                } else {
                    // Unlink: move `head` to the first data node (the
                    // uncontended compare-and-swap), then read the value
                    // out — only the winner of that swap gets here — and
                    // retire the old sentinel.
                    let ghost pre = *self;
                    let mut slot: Option<Node<T>> = None;
                    self.nodes.set_and_swap(next_idx, &mut slot);
                    match slot {
                        Some(node_taken) => {
                            let Node { payload, next } = node_taken;
                            match payload {
                                Payload::Data(t) => {
                                    self.nodes.set(next_idx, Some(
                                        Node { payload: Payload::Sentinel, next },
                                    ));
                                    self.nodes.set(head_idx, None);
                                    self.head = next_idx;
                                    self.chain = Ghost(self.chain@.drop_first());
                                    proof {
                                        assert(next == pre.node_at(next_idx as int).next);
                                        assert(self.nodes@ =~= pre.nodes@.update(
                                            next_idx as int,
                                            Some(Node { payload: Payload::Sentinel, next }),
                                        ).update(head_idx as int, None));
                                        lemma_unlink_first(pre, *self, t);
                                    }
                                    Ok(Some(t))
                                },
                                p => {
                                    // Cannot arise: the node was just seen
                                    // to carry data. Put it back unchanged.
                                    self.nodes.set(next_idx, Some(Node { payload: p, next }));
                                    Ok(None)
                                },
                            }
                        },
                        None => Ok(None),
                    }
                }
            },
        }
    }

    /// Add `t` to the back of the queue, or hand it to a waiting
    /// consumer.
    ///
    /// The tail snapshot is the mode oracle: if it carries data — or is
    /// the sentinel, an empty queue counting as either mode — a data node
    /// is linked at the tail. Otherwise the queue holds waiting
    /// consumers; the first one is unlinked, receives `t` in its slot and
    /// is flagged ready, and its id is returned so the caller can unpark
    /// the parked thread. `None` means the value was linked and no one
    /// needs waking.
    pub fn push(&mut self, t: T) -> (wake: Option<usize>)
        requires
            old(self).wf(),
        ensures
            final(self).wf(),
            old(self).waiting().len() == 0 ==> ({
                &&& final(self).vals() == old(self).vals().push(t)
                &&& final(self).waiting() == old(self).waiting()
                &&& wake is None
                &&& waiters_preserved(*old(self), *final(self))
                &&& final(self).num_waiters() == old(self).num_waiters()
            }),
            old(self).waiting().len() > 0 ==> ({
                let w = old(self).waiting()[0];
                &&& wake == Some(w)
                &&& final(self).vals() == old(self).vals()
                &&& final(self).waiting() == old(self).waiting().drop_first()
                &&& final(self).waiter_is_ready(w as int)
                &&& final(self).waiter_value(w as int) == Some(t)
                &&& waiters_preserved_except(*old(self), *final(self), w as int)
                &&& final(self).num_waiters() == old(self).num_waiters()
            }),
    {
        let ghost pre = *self;
        let mut item = t;
        loop
            invariant
                self.wf(),
                *self == pre,
                pre == *old(self),
                item == t,
            decreases 0int,
        {
            // The tail snapshot decides the mode.
            let tail_snap = self.tail;
            proof {
                assert(self.chain@.last() == self.tail);
                assert(self.chain@[self.chain@.len() - 1] == tail_snap);
                assert(self.chain@.contains(tail_snap));
            }
            let tail_is_data = match &self.nodes[tail_snap] {
                Some(node) => node.is_data(),
                None => false,
            };
            if tail_is_data || self.head == tail_snap {
                // Data mode (an empty queue counts as either mode): link
                // a data node onto the tail snapshot.
                proof {
                    let c = self.chain@;
                    if self.head == tail_snap {
                        // only the sentinel remains
                        if c.len() > 1 {
                            assert(c[0] != c[c.len() - 1]);
                        }
                        assert(c.len() == 1);
                    } else if c.len() > 1 {
                        // the tail carries data, hence every non-sentinel
                        // node does
                        assert(self.rest()[c.len() - 2] == self.node_at(
                            c[c.len() - 1] as int,
                        ).payload);
                        assert(self.rest()[0] is Data);
                    }
                    assert(self.waiting().len() == 0);
                }
                match self.push_internal(
                    tail_snap,
                    Node { payload: Payload::Data(item), next: None },
                ) {
                    Ok(()) => {
                        return None;
                    },
                    Err(node_back) => {
                        // Stale snapshot: recover the value and retry.
                        match node_back.payload {
                            Payload::Data(v) => {
                                item = v;
                            },
                            _ => {
                                proof {
                                    assert(false);  // the node came back as sent
                                }
                                return None;
                            },
                        }
                    },
                }
            } else {
                // Blocked mode: unlink the first blocked node and hand
                // the value straight to its waiter.
                proof {
                    let c = self.chain@;
                    assert(c.len() >= 2) by {
                        if c.len() == 1 {
                            assert(c[0] == c.last());
                        }
                    }
                    assert(c[0] == self.head);
                    assert(self.rest()[c.len() - 2] == self.node_at(
                        c[c.len() - 1] as int,
                    ).payload);
                    assert(!(self.node_at(c[c.len() - 1] as int).payload is Sentinel));
                    assert(!(self.rest()[0] is Data));
                    assert(!(self.node_at(c[1] as int).payload is Sentinel));
                    assert(self.node_at(c[1] as int).payload is Blocked);
                }
                let head_snap = self.head;
                let next_opt = match &self.nodes[head_snap] {
                    Some(node) => node.next,
                    None => None,
                };
                match next_opt {
                    Some(next_idx) => {
                        proof {
                            assert(self.node_at(self.chain@[0] as int).next == Some(
                                self.chain@[1],
                            ));
                            assert(next_idx == self.chain@[1]);
                        }
                        // The first request, with its successor link.
                        let req = match &self.nodes[next_idx] {
                            Some(node) => match &node.payload {
                                Payload::Blocked(wid) => Some((*wid, node.next)),
                                _ => None,
                            },
                            None => None,
                        };
                        match req {
                            Some((wid, next_next)) => {
                                proof {
                                    assert(self.node_at(next_idx as int).payload
                                        == Payload::Blocked::<T>(wid));
                                    assert((wid as int) < self.waiters@.len());
                                }
                                // Win the unlink race: advance head past
                                // the blocked node, which becomes the new
                                // sentinel; retire the old one.
                                self.head = next_idx;
                                self.nodes.set(
                                    next_idx,
                                    Some(Node { payload: Payload::Sentinel, next: next_next }),
                                );
                                self.nodes.set(head_snap, None);
                                self.chain = Ghost(self.chain@.drop_first());
                                // Deliver the value, then raise the ready
                                // flag; the caller unparks the thread.
                                self.waiters.set(
                                    wid,
                                    Waiter { data: Some(item), ready: true },
                                );
                                proof {
                                    assert(self.nodes@ =~= pre.nodes@.update(
                                        pre.chain@[1] as int,
                                        Some(
                                            Node {
                                                payload: Payload::Sentinel,
                                                next: pre.node_at(pre.chain@[1] as int).next,
                                            },
                                        ),
                                    ).update(pre.chain@[0] as int, None));
                                    assert(self.waiters@ =~= pre.waiters@.update(
                                        wid as int,
                                        Waiter { data: Some(t), ready: true },
                                    ));
                                    lemma_handoff_first(pre, *self, t, wid);
                                }
                                return Some(wid);
                            },
                            None => {
                                // Raced with a mode flip; retry.
                                proof {
                                    assert(false);
                                }
                            },
                        }
                    },
                    None => {
                        // Raced with the queue emptying; retry.
                        proof {
                            assert(false);
                        }
                    },
                }
            }
        }
    }

    /// Attempt to dequeue from the front.
    ///
    /// Returns the first held value, or `None` if the queue is observed
    /// to hold no data (it may instead hold waiting consumers). Never
    /// installs a waiter; retries only the raced unlink.
    pub fn try_pop(&mut self) -> (r: Option<T>)
        requires
            old(self).wf(),
        ensures
            final(self).wf(),
            waiters_preserved(*old(self), *final(self)),
            final(self).num_waiters() == old(self).num_waiters(),
            final(self).waiting() == old(self).waiting(),
            old(self).vals().len() > 0 ==> r == Some(old(self).vals()[0]) && final(self).vals()
                == old(self).vals().drop_first(),
            old(self).vals().len() == 0 ==> r is None && final(self).vals() == old(self).vals(),
    {
        let ghost pre = *self;
        loop
            invariant
                self.wf(),
                *self == pre,
                pre == *old(self),
            decreases 0int,
        {
            match self.pop_internal() {
                Ok(r) => {
                    return r;
                },
                Err(_) => {},  // lost the unlink race; retry
            }
        }
    }

    /// Dequeue the first value, which the caller knows to be present.
    ///
    /// This is the fast path of the blocking dequeue: while data is held,
    /// no waiter is installed and the first value comes straight out. A
    /// caller that cannot guarantee data uses `pop_or_wait` and parks.
    pub fn pop(&mut self) -> (r: T)
        requires
            old(self).wf(),
            old(self).vals().len() > 0,
        ensures
            final(self).wf(),
            r == old(self).vals()[0],
            final(self).vals() == old(self).vals().drop_first(),
            final(self).waiting() == old(self).waiting(),
            waiters_preserved(*old(self), *final(self)),
            final(self).num_waiters() == old(self).num_waiters(),
    {
        let ghost pre = *self;
        loop
            invariant
                self.wf(),
                *self == pre,
                pre == *old(self),
                pre.vals().len() > 0,
            decreases 0int,
        {
            match self.pop_internal() {
                Ok(Some(v)) => {
                    return v;
                },
                Ok(None) => {},  // cannot arise: data is present
                Err(_) => {},  // lost the unlink race; retry
            }
        }
    }

    /// Dequeue a value if one is present, or publish a waiter.
    ///
    /// The first phase retries the plain dequeue until the queue is seen
    /// to hold no data. The second registers a fresh waiter and links a
    /// blocked node for it at the tail — double-checking that the queue
    /// has not re-entered data mode, with the sentinel counting as either
    /// mode. On `Waiting(w)` the caller must wait (parking between
    /// checks) until `waiter_ready(w)` holds, then collect the value with
    /// `waiter_take(w)`; a producer that hands off to `w` reports it so
    /// the caller's thread can be unparked.
    pub fn pop_or_wait(&mut self) -> (r: PopAttempt<T>)
        requires
            old(self).wf(),
        ensures
            final(self).wf(),
            old(self).vals().len() > 0 ==> ({
                &&& r matches PopAttempt::Popped(v) && v == old(self).vals()[0]
                &&& final(self).vals() == old(self).vals().drop_first()
                &&& final(self).waiting() == old(self).waiting()
                &&& waiters_preserved(*old(self), *final(self))
                &&& final(self).num_waiters() == old(self).num_waiters()
            }),
            old(self).vals().len() == 0 ==> (r matches PopAttempt::Waiting(w) && ({
                &&& w as int == old(self).num_waiters()
                &&& final(self).vals() == old(self).vals()
                &&& final(self).waiting() == old(self).waiting().push(w)
                &&& final(self).num_waiters() == old(self).num_waiters() + 1
                &&& !final(self).waiter_is_ready(w as int)
                &&& final(self).waiter_value(w as int) is None
                &&& waiters_preserved(*old(self), *final(self))
            })),
    {
        let ghost pre = *self;
        // Phase 1: fast path — no waiter while data might be seen.
        loop
            invariant
                self.wf(),
                *self == pre,
                pre == *old(self),
            ensures
                *self == pre,
                pre.vals().len() == 0,
            decreases 0int,
        {
            match self.pop_internal() {
                Ok(Some(v)) => {
                    return PopAttempt::Popped(v);
                },
                Ok(None) => {
                    break;
                },
                Err(_) => {},  // lost the unlink race; retry
            }
        }
        // Phase 2: no data was seen; register a waiter and publish a
        // blocked node for it.
        let w = self.waiters.len();
        self.waiters.push(Waiter { data: None, ready: false });
        let mut node = Node { payload: Payload::Blocked(w), next: None };
        loop
            invariant
                self.wf(),
                pre.wf(),
                pre == *old(self),
                pre.vals().len() == 0,
                self.vals() == pre.vals(),
                self.waiting() == pre.waiting(),
                self.waiters@ == pre.waiters@.push(Waiter { data: None, ready: false }),
                w as int == pre.num_waiters(),
                node == (Node { payload: Payload::Blocked::<T>(w), next: None }),
            decreases 0int,
        {
            // One more try at a plain dequeue before publishing.
            match self.pop_internal() {
                Ok(Some(v)) => {
                    return PopAttempt::Popped(v);
                },
                Ok(None) => {},
                Err(_) => {},
            }
            // Snapshot the tail onto which the blocked node goes.
            let tail_snap = self.tail;
            proof {
                assert(self.chain@[self.chain@.len() - 1] == tail_snap);
                assert(self.chain@.contains(tail_snap));
            }
            let tail_is_data = match &self.nodes[tail_snap] {
                Some(node_ref) => node_ref.is_data(),
                None => false,
            };
            if tail_is_data {
                // Double-check: a data tail means the queue re-entered
                // data mode — unless it is the sentinel, which counts as
                // either mode.
                let head_snap = self.head;
                if tail_snap != head_snap {
                    proof {
                        let c = self.chain@;
                        if c.len() == 1 {
                            assert(c[0] == c.last());
                        } else {
                            assert(self.rest()[c.len() - 2] == self.node_at(
                                c[c.len() - 1] as int,
                            ).payload);
                            assert(self.rest()[0] is Data);
                            assert(self.vals().len() == self.rest().len());
                        }
                        assert(false);  // no data was seen just above
                    }
                    continue;
                }
            }
            // The snapshot is a blocked node or the sentinel: linking a
            // blocked node onto it keeps the mode uniform.
            proof {
                lemma_waiting_ids_bounded(pre);
                if self.waiting().contains(w) {
                    let i = choose|i: int|
                        0 <= i < self.waiting().len() && self.waiting()[i] == w;
                    assert(pre.waiting()[i] < pre.waiters@.len());
                }
            }
            match self.push_internal(tail_snap, node) {
                Ok(()) => {
                    return PopAttempt::Waiting(w);
                },
                Err(n_back) => {
                    node = n_back;  // stale snapshot; retry with the same node
                },
            }
        }
    }

    /// Has waiter `w` been handed a value? A parked consumer re-checks
    /// this after every wake, so a spurious wake merely parks again.
    pub fn waiter_ready(&self, w: usize) -> (r: bool)
        requires
            self.wf(),
            (w as int) < self.num_waiters(),
        ensures
            r == self.waiter_is_ready(w as int),
    {
        self.waiters[w].ready
    }

    /// Collect the value delivered to waiter `w`, once `waiter_ready(w)`
    /// reports true. The waiter's record is cleared; its id is never
    /// reused.
    pub fn waiter_take(&mut self, w: usize) -> (r: T)
        requires
            old(self).wf(),
            (w as int) < old(self).num_waiters(),
            old(self).waiter_is_ready(w as int),
        ensures
            final(self).wf(),
            old(self).waiter_value(w as int) == Some(r),
            final(self).vals() == old(self).vals(),
            final(self).waiting() == old(self).waiting(),
            final(self).num_waiters() == old(self).num_waiters(),
            waiters_preserved_except(*old(self), *final(self), w as int),
            !final(self).waiter_is_ready(w as int),
            final(self).waiter_value(w as int) is None,
    {
        let ghost pre = *self;
        let mut slot = Waiter { data: None, ready: false };
        self.waiters.set_and_swap(w, &mut slot);
        proof {
            // A ready waiter is not reachable from the chain (reachable
            // ones are unserved), so the structure and both views are
            // untouched.
            assert(self.rest() =~= pre.rest());
            assert forall|i: int| 1 <= i < self.chain@.len() implies ((
            #[trigger] self.node_at(self.chain@[i] as int).payload) matches Payload::Blocked(v)
                ==> v < self.waiters@.len() && !self.waiters@[v as int].ready
                && self.waiters@[v as int].data is None) by {
                if self.node_at(self.chain@[i] as int).payload is Blocked {
                    assert(!pre.waiters@[self.node_at(
                        self.chain@[i] as int,
                    ).payload->Blocked_0 as int].ready);
                }
            }
            assert(self.wf());
            assert(self.vals() =~= pre.vals());
            assert(self.waiting() =~= pre.waiting());
        }
        match slot.data {
            Some(v) => v,
            None => vstd::pervasive::unreached(),  // a ready waiter holds a value
        }
    }

    /// Check whether the queue holds data.
    ///
    /// Looks only at the sentinel's successor: absent, or a blocked
    /// request, means no data can be dequeued — a queue full of waiting
    /// consumers reports empty.
    pub fn is_empty(&self) -> (r: bool)
        requires
            self.wf(),
        ensures
            r == (self.vals().len() == 0),
    {
        proof {
            assert(self.chain@[0] == self.head);
        }
        let next_opt = match &self.nodes[self.head] {
            Some(node) => node.next,
            None => None,
        };
        match next_opt {
            None => {
                proof {
                    assert(self.chain@.len() == 1) by {
                        if self.chain@.len() > 1 {
                            assert(self.node_at(self.chain@[0] as int).next == Some(
                                self.chain@[1],
                            ));
                        }
                    }
                    assert(self.rest().len() == 0);
                }
                true
            },
            Some(nxt) => {
                proof {
                    assert(self.chain@.len() > 1);
                    assert(self.node_at(self.chain@[0] as int).next == Some(self.chain@[1]));
                    assert(nxt == self.chain@[1]);
                    assert(self.rest()[0] == self.node_at(self.chain@[1] as int).payload);
                }
                match &self.nodes[nxt] {
                    Some(node) => {
                        match &node.payload {
                            Payload::Data(_) => false,
                            _ => true,
                        }
                    },
                    None => true,
                }
            },
        }
    }
}

impl<T> Default for MsQueue<T> {
    /// An empty queue.
    fn default() -> (q: Self)
        ensures
            q.wf(),
            q.vals() == Seq::<T>::empty(),
            q.waiting() == Seq::<usize>::empty(),
            q.num_waiters() == 0,
    {
        MsQueue::new()
    }
}

} // verus!
