//! The straight skeleton: the forest of vertex records, the log of the events
//! that built it, and how the wavefront of any moment is read back from the
//! two.
use crate::event::Event;
use crate::vertex_queue::{
    active_count, is_active, lemma_active_below_update, lemma_removed, lemma_split, links_wf,
    removed, split, still_active, IndexType, Node, VertexQueue,
};
use vstd::prelude::*;

verus! {

/// What a tree vertex has in place of a parent while it has none.
pub const NO_PARENT: usize = usize::MAX;

/// One record of the skeleton.
#[derive(Clone, Copy, Debug, PartialEq, Eq, Structural)]
pub enum VertexType {
    /// A vertex of the wavefront, of now or of earlier. `parent` is the
    /// record that it fed into, or `NO_PARENT` while it is still moving.
    Tree { parent: usize },
    /// The mark of a split: the vertex `anchor` struck an edge and went on
    /// as `split_left` and `split_right`.
    Split { anchor: usize, split_left: usize, split_right: usize },
    /// The point at which a whole loop of the wavefront vanished.
    Root,
}

impl VertexType {
    /// Makes `nparent` the parent of a tree vertex.
    pub fn set_parent(&mut self, nparent: usize)
        requires
            *old(self) is Tree,
        ensures
            *final(self) == (VertexType::Tree { parent: nparent }),
    {
        *self = VertexType::Tree { parent: nparent };
    }
}

/// The records form a forest. A tree vertex has no parent or one that was
/// made after it, and where that is a split, it is the split that ended the
/// vertex. A split stands right after the two tree vertices that it made,
/// which stand after the vertex that it ended.
pub open spec fn forest(t: Seq<VertexType>) -> bool {
    forall|i: int|
        0 <= i < t.len() ==> match #[trigger] t[i] {
            VertexType::Tree { parent } => parent == NO_PARENT || (i < parent < t.len() && (
            t[parent as int] matches VertexType::Split { anchor, .. } ==> anchor == i)),
            VertexType::Split { anchor, split_left, split_right } => anchor < split_left
                && split_left + 1 == split_right && split_right + 1 == i
                && t[split_left as int] is Tree && t[split_right as int] is Tree,
            VertexType::Root => true,
        }
}

/// The record reached from record `i` by going from parent to parent for as
/// long as there is one.
pub open spec fn top(t: Seq<VertexType>, i: int) -> int
    decreases t.len() - i,
{
    if 0 <= i < t.len() {
        match t[i] {
            VertexType::Tree { parent } => if i < parent < t.len() {
                top(t, parent as int)
            } else {
                i
            },
            _ => i,
        }
    } else {
        i
    }
}

/// In a forest every record has one way up, which never comes back to a
/// record that it left and ends at a record without a parent: a root, a
/// split, or a vertex that is still moving.
pub proof fn lemma_forest_has_no_cycle(t: Seq<VertexType>, i: int)
    requires
        forest(t),
        0 <= i < t.len(),
    ensures
        i <= top(t, i) < t.len(),
        match t[top(t, i)] {
            VertexType::Tree { parent } => parent == NO_PARENT,
            _ => true,
        },
        match t[i] {
            VertexType::Tree { parent } => parent != NO_PARENT ==> i < parent && top(t, i) == top(
                t,
                parent as int,
            ),
            _ => top(t, i) == i,
        },
    decreases t.len() - i,
{
    match t[i] {
        VertexType::Tree { parent } => {
            if i < parent < t.len() {
                lemma_forest_has_no_cycle(t, parent as int);
            }
        },
        _ => {},
    }
}

/// The event `e` can be applied to the queue `q`: the slots that it names
/// are active, and a split strikes an edge that does not start at its own
/// vertex.
pub open spec fn event_ok(q: Seq<Node>, e: Event) -> bool {
    match e {
        Event::VertexEvent { merge_from, .. } => is_active(q, merge_from as int),
        Event::EdgeEvent { split_from, split_into, .. } => {
            &&& is_active(q, split_from as int)
            &&& is_active(q, split_into as int)
            &&& split_from != split_into
            &&& q.len() < usize::MAX
        },
    }
}

/// The queue with the slots `a` and `b` marked as done.
pub open spec fn both_done(q: Seq<Node>, a: int, b: int) -> Seq<Node> {
    let q1 = q.update(a, Node { done: true, ..q[a] });
    q1.update(b, Node { done: true, ..q1[b] })
}

/// The queue after the event `e`. A vertex event unlinks its slot; if the
/// slot that goes on is then its own left and right neighbour, or has one
/// slot as both, the loop has vanished and what is left of it is marked as
/// done. An edge event cuts the struck edge.
pub open spec fn applied(q: Seq<Node>, e: Event) -> Seq<Node> {
    match e {
        Event::VertexEvent { merge_from, merge_to, .. } => {
            let q1 = removed(q, merge_from as int, merge_to);
            let cv = q[merge_from as int].right as int;
            if q1[cv].left == q1[cv].right {
                both_done(q1, q1[cv].left as int, cv)
            } else {
                q1
            }
        },
        Event::EdgeEvent { split_from, split_into, split_to_left, split_to_right, .. } => split(
            q,
            split_from as int,
            split_into as int,
            split_to_left,
            split_to_right,
        ),
    }
}

/// What applying the event `e` to the queue `q` reports. After a vertex
/// event: the slot that goes on, or, where the loop has vanished, the vertex
/// record of the other slot that was left of it. After an edge event: the
/// two slots that go on.
pub open spec fn outcome(q: Seq<Node>, e: Event) -> (Option<IndexType>, Option<IndexType>) {
    match e {
        Event::VertexEvent { merge_from, merge_to, .. } => {
            let q1 = removed(q, merge_from as int, merge_to);
            let cv = q[merge_from as int].right;
            if q1[cv as int].left == q1[cv as int].right {
                (Some(IndexType::RealIndex(q1[q1[cv as int].left as int].index)), None)
            } else {
                (Some(IndexType::PointerIndex(cv)), None)
            }
        },
        Event::EdgeEvent { split_from, .. } => (
            Some(IndexType::PointerIndex(split_from)),
            Some(IndexType::PointerIndex(q.len() as usize)),
        ),
    }
}

/// Marking a whole loop of one or two slots as done keeps the other loops
/// intact.
pub proof fn lemma_both_done(q: Seq<Node>, cv: int)
    requires
        links_wf(q),
        0 <= cv < q.len(),
        0 <= q[cv].left < q.len(),
        q[cv].left == q[cv].right,
        q[cv].done ==> q[cv].left == cv,
    ensures
        links_wf(both_done(q, q[cv].left as int, cv)),
        both_done(q, q[cv].left as int, cv).len() == q.len(),
        active_count(both_done(q, q[cv].left as int, cv)) <= active_count(q),
        forall|p: int|
            is_active(both_done(q, q[cv].left as int, cv), p) <==> is_active(q, p) && p != cv && p
                != q[cv].left,
{
    let a = q[cv].left as int;
    let q1 = q.update(a, Node { done: true, ..q[a] });
    let q2 = q1.update(cv, Node { done: true, ..q1[cv] });
    lemma_active_below_update(q, a, Node { done: true, ..q[a] }, q.len() as int);
    lemma_active_below_update(q1, cv, Node { done: true, ..q1[cv] }, q.len() as int);
    if !q[cv].done {
        assert(is_active(q, cv));
        assert(is_active(q, a));
    }
    assert forall|p: int| #[trigger] is_active(q2, p) implies {
        &&& 0 <= q2[p].left < q2.len()
        &&& 0 <= q2[p].right < q2.len()
        &&& !q2[q2[p].left as int].done
        &&& !q2[q2[p].right as int].done
        &&& q2[q2[p].left as int].right == p
        &&& q2[q2[p].right as int].left == p
    } by {
        assert(is_active(q, p));
        assert(is_active(q, q[p].left as int));
        assert(is_active(q, q[p].right as int));
    }
}

/// An event that can be applied leaves the loops of the queue intact. A
/// vertex event leaves fewer active slots, an edge event one more.
pub proof fn lemma_applied(q: Seq<Node>, e: Event)
    requires
        links_wf(q),
        event_ok(q, e),
    ensures
        links_wf(applied(q, e)),
        e is VertexEvent ==> applied(q, e).len() == q.len() && active_count(applied(q, e))
            < active_count(q),
        e is EdgeEvent ==> applied(q, e).len() == q.len() + 1 && active_count(applied(q, e))
            == active_count(q) + 1,
        forall|p: int| is_active(applied(q, e), p) ==> is_active(q, p) || (e is EdgeEvent && p == q.len()),
{
    match e {
        Event::VertexEvent { merge_from, merge_to, .. } => {
            lemma_removed(q, merge_from as int, merge_to);
            let q1 = removed(q, merge_from as int, merge_to);
            let cv = q[merge_from as int].right as int;
            assert(is_active(q, cv));
            if q1[cv].left == q1[cv].right {
                if cv != merge_from {
                    assert(is_active(q1, cv));
                }
                lemma_both_done(q1, cv);
            }
        },
        Event::EdgeEvent { split_from, split_into, split_to_left, split_to_right, .. } => {
            lemma_split(q, split_from as int, split_into as int, split_to_left, split_to_right);
        },
    }
}


/// The queue `q` after the events of `log`, one after the other.
pub open spec fn replayed(q: Seq<Node>, log: Seq<Event>) -> Seq<Node>
    decreases log.len(),
{
    if log.len() == 0 {
        q
    } else {
        applied(replayed(q, log.drop_last()), log.last())
    }
}

/// Each event of `log` can be applied to what the events before it have made
/// of the queue `q`.
pub open spec fn replayable(q: Seq<Node>, log: Seq<Event>) -> bool
    decreases log.len(),
{
    log.len() == 0 || (replayable(q, log.drop_last()) && event_ok(
        replayed(q, log.drop_last()),
        log.last(),
    ))
}

/// The number of events at the head of `log` that fired no later than `d`.
pub open spec fn due(log: Seq<Event>, d: i64) -> int
    decreases log.len(),
{
    if log.len() == 0 || log[0].time() > d {
        0
    } else {
        1 + due(log.skip(1), d)
    }
}

/// `due` counts the events up to the first that fired later than `d`.
pub proof fn lemma_due_is(log: Seq<Event>, d: i64, k: int)
    requires
        0 <= k <= log.len(),
        forall|i: int| 0 <= i < k ==> (#[trigger] log[i]).time() <= d,
        k == log.len() || log[k].time() > d,
    ensures
        due(log, d) == k,
    decreases k,
{
    if k > 0 {
        let rest = log.skip(1);
        assert forall|i: int| 0 <= i < k - 1 implies (#[trigger] rest[i]).time() <= d by {
            assert(rest[i] == log[i + 1]);
        }
        lemma_due_is(rest, d, k - 1);
    }
}

/// At a moment before the first event the queue is the initial queue.
pub proof fn lemma_nothing_due(q: Seq<Node>, log: Seq<Event>, d: i64)
    requires
        log.len() == 0 || log[0].time() > d,
    ensures
        due(log, d) == 0,
        replayed(q, log.take(due(log, d))) == q,
{
    assert(log.take(0) =~= Seq::<Event>::empty());
}

/// A log that can be replayed can be replayed up to any of its events.
pub proof fn lemma_replay_prefix(q: Seq<Node>, log: Seq<Event>, k: int)
    requires
        replayable(q, log),
        0 <= k <= log.len(),
    ensures
        replayable(q, log.take(k)),
    decreases log.len(),
{
    if k == log.len() {
        assert(log.take(k) =~= log);
    } else {
        lemma_replay_prefix(q, log.drop_last(), k);
        assert(log.drop_last().take(k) =~= log.take(k));
    }
}

/// Replaying a log keeps the loops of the queue intact.
pub proof fn lemma_replayed_wf(q: Seq<Node>, log: Seq<Event>)
    requires
        links_wf(q),
        replayable(q, log),
    ensures
        links_wf(replayed(q, log)),
    decreases log.len(),
{
    if log.len() > 0 {
        lemma_replayed_wf(q, log.drop_last());
        lemma_applied(replayed(q, log.drop_last()), log.last());
    }
}

/// A straight skeleton, complete or in the making.
#[derive(Debug)]
pub struct Skeleton {
    /// The vertex records. A record keeps its index for good.
    pub ray_vector: Vec<VertexType>,
    /// The log of the events that have fired, in the order in which they
    /// did.
    pub event_queue: Vec<Event>,
    /// The queue as it was before the first event.
    pub initial_vertex_queue: VertexQueue,
}

impl Skeleton {
    /// The records form a forest, every vertex of the initial queue has its
    /// record, and the log can be replayed from the initial queue.
    pub open spec fn wf(&self) -> bool {
        &&& forest(self.ray_vector@)
        &&& self.initial_vertex_queue.wf()
        &&& replayable(self.initial_vertex_queue@, self.event_queue@)
        &&& forall|p: int| #[trigger]
            is_active(self.initial_vertex_queue@, p) ==> self.initial_vertex_queue@[p].index
                < self.ray_vector@.len()
    }

    /// Applies a logged event to the queue and reports what goes on: see
    /// `applied` and `outcome`.
    #[verifier::rlimit(50)]
    pub fn apply_event(vertex_queue: &mut VertexQueue, event: &Event) -> (r: (
        Option<IndexType>,
        Option<IndexType>,
    ))
        requires
            old(vertex_queue).wf(),
            match *event {
                Event::VertexEvent { merge_from, .. } => is_active(
                    old(vertex_queue)@,
                    merge_from as int,
                ),
                Event::EdgeEvent { split_from, split_into, .. } => is_active(
                    old(vertex_queue)@,
                    split_from as int,
                ) && is_active(old(vertex_queue)@, split_into as int) && split_from != split_into,
            },
        ensures
            event_ok(old(vertex_queue)@, *event),
            final(vertex_queue)@ == applied(old(vertex_queue)@, *event),
            r == outcome(old(vertex_queue)@, *event),
            final(vertex_queue).wf(),
            final(vertex_queue).live@ == match *event {
                Event::VertexEvent { .. } => old(vertex_queue).live@,
                Event::EdgeEvent { .. } => old(vertex_queue).live@.push(
                    old(vertex_queue)@.len() as usize,
                ).filter(still_active(final(vertex_queue)@)),
            },
            *event is VertexEvent ==> active_count(final(vertex_queue)@) < active_count(
                old(vertex_queue)@,
            ),
            *event is EdgeEvent ==> active_count(final(vertex_queue)@) == active_count(
                old(vertex_queue)@,
            ) + 1,
    {
        match *event {
            Event::VertexEvent { merge_from, merge_to, .. } => {
                let ghost q = vertex_queue@;
                let cv = vertex_queue.remove_and_set(
                    IndexType::PointerIndex(merge_from),
                    IndexType::RealIndex(merge_to),
                );
                let ghost q1 = vertex_queue@;
                let ghost live1 = vertex_queue.live@;
                proof {
                    lemma_removed(q, merge_from as int, merge_to);
                    assert(is_active(q, cv.value() as int));
                    if cv.value() != merge_from {
                        assert(is_active(q1, cv.value() as int));
                    }
                    lemma_applied(q, *event);
                }
                if vertex_queue.lv(cv) == vertex_queue.rv(cv) {
                    let lv = vertex_queue.lv(cv);
                    proof {
                        lemma_both_done(q1, cv.value() as int);
                    }
                    let mut a = vertex_queue.content[lv.get_index()];
                    a.done = true;
                    vertex_queue.content.set(lv.get_index(), a);
                    let mut b = vertex_queue.content[cv.get_index()];
                    b.done = true;
                    vertex_queue.content.set(cv.get_index(), b);
                    proof {
                        assert(vertex_queue@ =~= both_done(q1, lv.value() as int, cv.value() as int));
                        assert forall|p: int| #[trigger]
                            is_active(vertex_queue.content@, p) implies exists|i: int|
                            0 <= i < vertex_queue.live@.len() && #[trigger] vertex_queue.live@[i]
                                == p by {
                            assert(is_active(q1, p));
                            let i = choose|i: int| 0 <= i < live1.len() && #[trigger] live1[i] == p;
                            assert(vertex_queue.live@[i] == p);
                        }
                    }
                    let other = vertex_queue.lv(cv);
                    return (
                        Some(IndexType::RealIndex(vertex_queue.content[other.get_index()].index)),
                        None,
                    );
                }
                (Some(cv), None)
            },
            Event::EdgeEvent { split_from, split_into, split_to_left, split_to_right, .. } => {
                let ghost q = vertex_queue@;
                let ret = vertex_queue.split_and_set(
                    IndexType::PointerIndex(split_from),
                    IndexType::PointerIndex(split_into),
                    IndexType::RealIndex(split_to_left),
                    IndexType::RealIndex(split_to_right),
                );
                vertex_queue.cleanup();
                (Some(ret.0), Some(ret.1))
            },
        }
    }

    /// Returns the queue of the moment `time_elapsed`: the initial queue
    /// after every logged event up to the first that fired later.
    #[verifier::rlimit(50)]
    pub fn get_vertex_queue(&self, time_elapsed: i64) -> (ret: VertexQueue)
        requires
            self.wf(),
        ensures
            ret@ == replayed(
                self.initial_vertex_queue@,
                self.event_queue@.take(due(self.event_queue@, time_elapsed)),
            ),
            ret.wf(),
            due(self.event_queue@, time_elapsed) == 0 ==> ret.live@
                == self.initial_vertex_queue.live@,
            due(self.event_queue@, time_elapsed) > 0 ==> ret.is_compact(),
    {
        let mut ret = self.initial_vertex_queue.clone();
        let ghost init = self.initial_vertex_queue@;
        let ghost log = self.event_queue@;
        let n = self.event_queue.len();
        let mut k: usize = 0;
        let mut going = true;
        proof {
            assert(log.take(0) =~= Seq::<Event>::empty());
        }
        while going && k < n
            invariant
                k <= n,
                n == log.len(),
                log == self.event_queue@,
                init == self.initial_vertex_queue@,
                replayable(init, log),
                ret.wf(),
                ret@ == replayed(init, log.take(k as int)),
                k == 0 ==> ret.live@ == self.initial_vertex_queue.live@,
                k > 0 ==> ret.is_compact(),
                forall|i: int| 0 <= i < k ==> (#[trigger] log[i]).time() <= time_elapsed,
                !going ==> k < n && log[k as int].time() > time_elapsed,
            decreases n - k + if going { 1nat } else { 0nat },
        {
            let e = &self.event_queue[k];
            if e.unwrap_time() <= time_elapsed {
                proof {
                    lemma_replay_prefix(init, log, k + 1);
                    assert(log.take(k + 1).drop_last() =~= log.take(k as int));
                    assert(log.take(k + 1).last() == log[k as int]);
                }
                Self::apply_event(&mut ret, e);
                ret.cleanup();
                k += 1;
            } else {
                going = false;
            }
        }
        proof {
            lemma_due_is(log, time_elapsed, k as int);
        }
        ret
    }
}

} // verus!
