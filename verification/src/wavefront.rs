//! The simulation of the wavefront, one step at a time. The caller measures
//! (where do two neighbours meet, where does a vertex strike an edge) and
//! hands the answers in as keys; every decision is taken here.
use crate::event::{Event, Timeline};
use crate::priority_queue::{Prioritized, PriorityQueue};
use crate::schedule::{
    find_split_vertex, shrink_pairs, shrink_pairs_of, strikes, Candidate, Meeting, Pair, Sighting,
};
use crate::skeleton::{
    applied, forest, lemma_applied, outcome, replayable, replayed, Skeleton, VertexType, NO_PARENT,
};
use crate::vertex_queue::{
    initial, is_active, lemma_initial_wf, lemma_removed, links_wf, loops_view, removed, ring,
    IndexType, Node, VertexQueue,
};
use vstd::multiset::Multiset;
use vstd::prelude::*;
use vstd::seq_lib::to_multiset_build;

verus! {

/// The number of vertices in boundary loops of the given sizes.
pub open spec fn total(sizes: Seq<usize>) -> int
    decreases sizes.len(),
{
    if sizes.len() == 0 {
        0
    } else {
        total(sizes.drop_last()) + sizes.last()
    }
}

/// Boundary loops of the given sizes over vertices numbered from zero on,
/// loop after loop.
pub open spec fn consecutive(sizes: Seq<usize>) -> Seq<Seq<usize>>
    decreases sizes.len(),
{
    if sizes.len() == 0 {
        Seq::empty()
    } else {
        consecutive(sizes.drop_last()).push(
            Seq::new(sizes.last() as nat, |j: int| (total(sizes.drop_last()) + j) as usize),
        )
    }
}

/// The first loops hold no more vertices than all of them.
pub proof fn lemma_total_prefix(sizes: Seq<usize>, k: int)
    requires
        0 <= k <= sizes.len(),
    ensures
        0 <= total(sizes.take(k)) <= total(sizes),
    decreases sizes.len() - k,
{
    if k == sizes.len() {
        assert(sizes.take(k) =~= sizes);
        lemma_total_nonnegative(sizes);
    } else {
        lemma_total_prefix(sizes, k + 1);
        assert(sizes.take(k + 1).drop_last() =~= sizes.take(k));
        lemma_total_nonnegative(sizes.take(k));
    }
}

/// Loops hold no fewer than no vertices.
proof fn lemma_total_nonnegative(sizes: Seq<usize>)
    ensures
        0 <= total(sizes),
    decreases sizes.len(),
{
    if sizes.len() > 0 {
        lemma_total_nonnegative(sizes.drop_last());
    }
}

/// In the queue for consecutive loops there is one slot for each vertex,
/// and slot `p` holds vertex `p`.
pub proof fn lemma_consecutive(sizes: Seq<usize>)
    requires
        total(sizes) <= usize::MAX,
    ensures
        consecutive(sizes).len() == sizes.len(),
        initial(consecutive(sizes)).len() == total(sizes),
        forall|p: int| 0 <= p < total(sizes) ==> (#[trigger] initial(consecutive(sizes))[p]).index == p,
    decreases sizes.len(),
{
    if sizes.len() > 0 {
        lemma_total_nonnegative(sizes.drop_last());
        lemma_consecutive(sizes.drop_last());
        let loops = consecutive(sizes);
        assert(loops.drop_last() =~= consecutive(sizes.drop_last()));
        let before = initial(loops.drop_last());
        let r = ring(before.len() as int, loops.last());
        assert forall|p: int| 0 <= p < total(sizes) implies (#[trigger] initial(loops)[p]).index
            == p by {
            if p < before.len() {
                assert(initial(loops)[p] == before[p]);
            } else {
                assert(initial(loops)[p] == r[p - before.len()]);
            }
        }
    }
}

/// The slot `v` is active in `q` and holds the vertex record `occupant`.
pub open spec fn slot_fresh(q: Seq<Node>, v: IndexType, occupant: usize) -> bool {
    &&& v is PointerIndex
    &&& v.value() < q.len()
    &&& !q[v.value() as int].done
    &&& q[v.value() as int].index == occupant
}

/// The scheduled event `x` has been overtaken: a slot that it names has left
/// the wavefront, or holds another vertex record than it did when the event
/// was scheduled.
pub open spec fn is_stale(q: Seq<Node>, x: Timeline) -> bool {
    match x {
        Timeline::ShrinkEvent { left_vertex, right_vertex, left_real, right_real, .. } => !(
        slot_fresh(q, left_vertex, left_real) && slot_fresh(q, right_vertex, right_real)),
        Timeline::SplitEvent { anchor_vertex, anchor_real, .. } => !slot_fresh(
            q,
            anchor_vertex,
            anchor_real,
        ),
    }
}

/// Every active slot of `q` holds a tree vertex of `t`.
pub open spec fn occupied(q: Seq<Node>, t: Seq<VertexType>) -> bool {
    forall|p: int| #[trigger]
        is_active(q, p) ==> q[p].index < t.len() && t[q[p].index as int] is Tree
}

/// The shrink events scheduled for `pairs`: one for each pair of which
/// `meets` says, at the same position, that it meets.
pub open spec fn shrink_events(pairs: Seq<Pair>, meets: Seq<Option<Meeting>>) -> Seq<Timeline>
    decreases pairs.len(),
{
    if pairs.len() == 0 {
        Seq::empty()
    } else {
        let before = shrink_events(pairs.drop_last(), meets);
        let i = pairs.len() - 1;
        if i < meets.len() && meets[i] is Some {
            before.push(
                Timeline::ShrinkEvent {
                    time: meets[i].unwrap().time,
                    location: meets[i].unwrap().location,
                    left_vertex: pairs[i].0,
                    right_vertex: pairs[i].1,
                    left_real: pairs[i].2,
                    right_real: pairs[i].3,
                    tie_break: meets[i].unwrap().tie_break,
                },
            )
        } else {
            before
        }
    }
}

/// The split event scheduled for the candidate `c` of the vertex in slot
/// `anchor`.
pub open spec fn split_event(anchor: usize, anchor_real: usize) -> spec_fn(Candidate) -> Timeline {
    |c: Candidate|
        Timeline::SplitEvent {
            time: c.0,
            location: c.1,
            anchor_vertex: IndexType::PointerIndex(anchor),
            anchor_real,
        }
}

/// The log entry of the shrink event `x`, whose new vertex gets the record
/// `new_index`.
pub open spec fn shrink_logged(x: Timeline, new_index: usize) -> Event {
    Event::VertexEvent { time: x.time(), merge_from: x->left_vertex.value(), merge_to: new_index }
}

/// The records after the shrink event `x` has fired on the queue `q`. A new
/// tree vertex is added and becomes the parent of the two that met. Where
/// the loop has vanished, it also becomes the parent of the one other vertex
/// that was left, and is turned into a root.
pub open spec fn shrink_table(t: Seq<VertexType>, q: Seq<Node>, x: Timeline) -> Seq<VertexType> {
    let n = t.len() as usize;
    let met = t.push(VertexType::Tree { parent: NO_PARENT }).update(
        x->left_real as int,
        VertexType::Tree { parent: n },
    ).update(x->right_real as int, VertexType::Tree { parent: n });
    match outcome(q, shrink_logged(x, n)).0 {
        Some(IndexType::RealIndex(rv)) => met.update(rv as int, VertexType::Tree { parent: n }).update(
            n as int,
            VertexType::Root,
        ),
        _ => met,
    }
}

/// The candidate at which the split event `x` fires on the queue `q`, given
/// what is measured of its vertex now: the first strike found, if it is at
/// the time and the place for which the event was scheduled.
pub open spec fn struck(
    q: Seq<Node>,
    x: Timeline,
    turn: int,
    sightings: Seq<Option<Sighting>>,
    orient: bool,
) -> Option<Candidate> {
    let r = strikes(q, x->anchor_vertex.value() as int, turn, sightings, false, orient);
    if r.len() == 1 && r[0].0 == x.time() && r[0].1 == x.location() {
        Some(r[0])
    } else {
        None
    }
}

/// The log entry of the split event `x` that fires at the candidate `c`,
/// whose new vertices get the records `new_index` and the one after it.
pub open spec fn split_logged(x: Timeline, c: Candidate, new_index: usize) -> Event {
    Event::EdgeEvent {
        time: x.time(),
        split_from: x->anchor_vertex.value(),
        split_into: c.2.value(),
        split_to_left: new_index,
        split_to_right: (new_index + 1) as usize,
    }
}

/// The records after a split event of the vertex `anchor_real` has fired:
/// two new tree vertices and the mark of the split are added, in this order,
/// and the mark becomes the parent of `anchor_real`.
pub open spec fn split_table(t: Seq<VertexType>, anchor_real: usize) -> Seq<VertexType> {
    let n = t.len();
    t.push(VertexType::Tree { parent: NO_PARENT }).push(VertexType::Tree { parent: NO_PARENT }).push(
        VertexType::Split {
            anchor: anchor_real,
            split_left: n as usize,
            split_right: (n + 1) as usize,
        },
    ).update(anchor_real as int, VertexType::Tree { parent: (n + 2) as usize })
}

/// A wavefront in motion: the skeleton built so far, the active vertices,
/// and the events that are scheduled.
#[derive(Debug)]
pub struct Wavefront {
    /// Whether the wavefront moves into the polygons, away from the left of
    /// their edges, or out of them.
    pub orient: bool,
    /// The vertex records made so far.
    pub vertex_vector: Vec<VertexType>,
    /// The active vertices.
    pub vertex_queue: VertexQueue,
    /// The events that are scheduled.
    pub event_pq: PriorityQueue<Timeline>,
    /// The log of the events that have fired.
    pub event_queue: Vec<Event>,
    /// The active vertices as they were before the first event.
    pub initial_vertex_queue: VertexQueue,
}

impl Wavefront {
    /// The parts of the wavefront fit together: the records form a forest,
    /// the queues and the heap are in order, every active slot holds a tree
    /// vertex, and the log leads from the initial queue to the present one.
    pub open spec fn wf(&self) -> bool {
        &&& forest(self.vertex_vector@)
        &&& self.vertex_queue.wf()
        &&& self.initial_vertex_queue.wf()
        &&& self.event_pq.wf()
        &&& occupied(self.vertex_queue@, self.vertex_vector@)
        &&& replayable(self.initial_vertex_queue@, self.event_queue@)
        &&& replayed(self.initial_vertex_queue@, self.event_queue@) == self.vertex_queue@
        &&& forall|p: int| #[trigger]
            is_active(self.initial_vertex_queue@, p) ==> self.initial_vertex_queue@[p].index
                < self.vertex_vector@.len()
    }

    /// Returns the wavefront at rest on boundary loops of the given sizes:
    /// one tree vertex without a parent and one slot for each corner, slot
    /// `p` holding vertex `p`; nothing scheduled, nothing logged.
    #[verifier::rlimit(50)]
    pub fn new(sizes: &Vec<usize>, orient: bool) -> (r: Self)
        requires
            total(sizes@) <= usize::MAX,
        ensures
            r.wf(),
            r.orient == orient,
            r.vertex_vector@ == Seq::new(
                total(sizes@) as nat,
                |i: int| VertexType::Tree { parent: NO_PARENT },
            ),
            r.vertex_queue@ == initial(consecutive(sizes@)),
            r.initial_vertex_queue@ == r.vertex_queue@,
            r.vertex_queue@.len() == total(sizes@),
            forall|p: int| 0 <= p < total(sizes@) ==> (#[trigger] r.vertex_queue@[p]).index == p,
            r.event_pq@ == Multiset::<Timeline>::empty(),
            r.event_queue@ == Seq::<Event>::empty(),
    {
        let mut loops: Vec<Vec<usize>> = Vec::new();
        let mut vertex_vector: Vec<VertexType> = Vec::new();
        let mut k: usize = 0;
        proof {
            assert(sizes@.take(0) =~= Seq::<usize>::empty());
            assert(loops_view(&loops) =~= consecutive(sizes@.take(0)));
        }
        while k < sizes.len()
            invariant
                k <= sizes@.len(),
                total(sizes@) <= usize::MAX,
                loops_view(&loops) == consecutive(sizes@.take(k as int)),
                vertex_vector@.len() == total(sizes@.take(k as int)),
                forall|i: int|
                    0 <= i < vertex_vector@.len() ==> #[trigger] vertex_vector@[i] == (
                    VertexType::Tree { parent: NO_PARENT }),
            decreases sizes@.len() - k,
        {
            let n = sizes[k];
            let start = vertex_vector.len();
            proof {
                lemma_total_prefix(sizes@, k + 1);
                assert(sizes@.take(k + 1).drop_last() =~= sizes@.take(k as int));
                assert(sizes@.take(k + 1).last() == n);
            }
            let mut one: Vec<usize> = Vec::new();
            let mut j: usize = 0;
            while j < n
                invariant
                    j <= n,
                    start + n <= usize::MAX,
                    vertex_vector@.len() == start + j,
                    one@.len() == j,
                    forall|i: int| 0 <= i < j ==> #[trigger] one@[i] == start + i,
                    forall|i: int|
                        0 <= i < vertex_vector@.len() ==> #[trigger] vertex_vector@[i] == (
                        VertexType::Tree { parent: NO_PARENT }),
                decreases n - j,
            {
                one.push(start + j);
                vertex_vector.push(VertexType::Tree { parent: NO_PARENT });
                j += 1;
            }
            let ghost before = loops_view(&loops);
            loops.push(one);
            proof {
                assert(loops_view(&loops) =~= before.push(one@));
                assert(one@ =~= Seq::new(
                    n as nat,
                    |j: int| (total(sizes@.take(k as int)) + j) as usize,
                ));
            }
            k += 1;
        }
        proof {
            assert(sizes@.take(k as int) =~= sizes@);
            lemma_consecutive(sizes@);
            lemma_initial_wf(consecutive(sizes@));
        }
        let vertex_queue = VertexQueue::init(&loops);
        let initial_vertex_queue = vertex_queue.clone();
        let r = Wavefront {
            orient,
            vertex_vector,
            vertex_queue,
            event_pq: PriorityQueue::new(),
            event_queue: Vec::new(),
            initial_vertex_queue,
        };
        proof {
            assert(r.vertex_vector@ =~= Seq::new(
                total(sizes@) as nat,
                |i: int| VertexType::Tree { parent: NO_PARENT },
            ));
            assert(r.initial_vertex_queue@ == r.vertex_queue@);
            assert(r.initial_vertex_queue.wf());
        }
        r
    }

    /// Returns the skeleton that the wavefront has built so far.
    pub fn finish(self) -> (r: Skeleton)
        requires
            self.wf(),
        ensures
            r.wf(),
            r.ray_vector@ == self.vertex_vector@,
            r.event_queue@ == self.event_queue@,
            r.initial_vertex_queue@ == self.initial_vertex_queue@,
    {
        Skeleton {
            ray_vector: self.vertex_vector,
            event_queue: self.event_queue,
            initial_vertex_queue: self.initial_vertex_queue,
        }
    }

    /// Returns whether the scheduled event `x` has been overtaken.
    pub fn is_stale(&self, x: &Timeline) -> (r: bool)
        ensures
            r == is_stale(self.vertex_queue@, *x),
    {
        match *x {
            Timeline::ShrinkEvent { left_vertex, right_vertex, left_real, right_real, .. } => {
                !(self.slot_fresh(left_vertex, left_real) && self.slot_fresh(
                    right_vertex,
                    right_real,
                ))
            },
            Timeline::SplitEvent { anchor_vertex, anchor_real, .. } => !self.slot_fresh(
                anchor_vertex,
                anchor_real,
            ),
        }
    }

    /// Returns whether the slot `v` is active and holds the vertex record
    /// `occupant`.
    fn slot_fresh(&self, v: IndexType, occupant: usize) -> (r: bool)
        ensures
            r == slot_fresh(self.vertex_queue@, v, occupant),
    {
        match v {
            IndexType::RealIndex(_) => false,
            IndexType::PointerIndex(p) => p < self.vertex_queue.content.len()
                && !self.vertex_queue.content[p].done && self.vertex_queue.content[p].index == occupant,
        }
    }
}


/// Adding the events of a sequence that ends in `a` adds what goes before
/// and then `a`.
proof fn add_push(m: Multiset<Timeline>, s: Seq<Timeline>, a: Timeline)
    ensures
        m.add(s.push(a).to_multiset()) == m.add(s.to_multiset()).insert(a),
{
    to_multiset_build(s, a);
    assert(m.add(s.push(a).to_multiset()) =~= m.add(s.to_multiset()).insert(a));
}

/// Adding the events of an empty sequence adds nothing.
proof fn add_none(m: Multiset<Timeline>)
    ensures
        m.add(Seq::<Timeline>::empty().to_multiset()) == m,
{
    broadcast use vstd::seq_lib::group_to_multiset_ensures;

    assert(m.add(Seq::<Timeline>::empty().to_multiset()) =~= m);
}

impl Wavefront {
    /// Schedules a shrink event for each pair of neighbours round slot `cv`
    /// that meets. `meets` says of each pair of `shrink_pairs`, in that
    /// order, whether it meets, and when and where.
    #[verifier::rlimit(50)]
    pub fn make_shrink_event(&mut self, cv: IndexType, meets: &Vec<Option<Meeting>>, is_init: bool)
        requires
            old(self).wf(),
            is_active(old(self).vertex_queue@, cv.value() as int),
        ensures
            final(self).wf(),
            final(self).event_pq@ == old(self).event_pq@.add(
                shrink_events(
                    shrink_pairs_of(old(self).vertex_queue@, cv.value() as int, is_init),
                    meets@,
                ).to_multiset(),
            ),
            final(self).vertex_vector == old(self).vertex_vector,
            final(self).vertex_queue == old(self).vertex_queue,
            final(self).event_queue == old(self).event_queue,
            final(self).initial_vertex_queue == old(self).initial_vertex_queue,
            final(self).orient == old(self).orient,
    {
        let pairs = shrink_pairs(cv, &self.vertex_queue, is_init);
        let mut i: usize = 0;
        proof {
            assert(pairs@.take(0) =~= Seq::<Pair>::empty());
            add_none(self.event_pq@);
        }
        while i < pairs.len()
            invariant
                i <= pairs@.len(),
                self.wf(),
                self.event_pq@ == old(self).event_pq@.add(
                    shrink_events(pairs@.take(i as int), meets@).to_multiset(),
                ),
                self.vertex_vector == old(self).vertex_vector,
                self.vertex_queue == old(self).vertex_queue,
                self.event_queue == old(self).event_queue,
                self.initial_vertex_queue == old(self).initial_vertex_queue,
                self.orient == old(self).orient,
            decreases pairs@.len() - i,
        {
            proof {
                assert(pairs@.take(i + 1).drop_last() =~= pairs@.take(i as int));
                assert(pairs@.take(i + 1).last() == pairs@[i as int]);
            }
            if i < meets.len() {
                if let Some(m) = meets[i] {
                    let p = pairs[i];
                    let x = Timeline::ShrinkEvent {
                        time: m.time,
                        location: m.location,
                        left_vertex: p.0,
                        right_vertex: p.1,
                        left_real: p.2,
                        right_real: p.3,
                        tie_break: m.tie_break,
                    };
                    proof {
                        add_push(
                            old(self).event_pq@,
                            shrink_events(pairs@.take(i as int), meets@),
                            x,
                        );
                    }
                    self.event_pq.insert(x);
                }
            }
            i += 1;
        }
        proof {
            assert(pairs@.take(pairs@.len() as int) =~= pairs@);
        }
    }

    /// Schedules a split event for each place at which the vertex in slot
    /// `cv`, whose edges turn by `turn`, would strike an edge. `sightings`
    /// holds what was measured for each edge of `split_edges`, in that
    /// order.
    #[verifier::rlimit(50)]
    pub fn make_split_event(&mut self, cv: IndexType, turn: i32, sightings: &Vec<Option<Sighting>>)
        requires
            old(self).wf(),
            is_active(old(self).vertex_queue@, cv.value() as int),
        ensures
            final(self).wf(),
            final(self).event_pq@ == old(self).event_pq@.add(
                strikes(
                    old(self).vertex_queue@,
                    cv.value() as int,
                    turn as int,
                    sightings@,
                    true,
                    old(self).orient,
                ).map_values(
                    split_event(
                        cv.value(),
                        old(self).vertex_queue@[cv.value() as int].index,
                    ),
                ).to_multiset(),
            ),
            final(self).vertex_vector == old(self).vertex_vector,
            final(self).vertex_queue == old(self).vertex_queue,
            final(self).event_queue == old(self).event_queue,
            final(self).initial_vertex_queue == old(self).initial_vertex_queue,
            final(self).orient == old(self).orient,
    {
        let resv = find_split_vertex(cv, &self.vertex_queue, turn, sightings, true, self.orient);
        let anchor = IndexType::PointerIndex(cv.get_index());
        let cv_real = self.vertex_queue.get_real_index(anchor);
        let ghost f = split_event(cv.value(), cv_real);
        let mut i: usize = 0;
        proof {
            assert(resv@.take(0).map_values(f) =~= Seq::<Timeline>::empty());
            add_none(self.event_pq@);
        }
        while i < resv.len()
            invariant
                i <= resv@.len(),
                self.wf(),
                anchor == IndexType::PointerIndex(cv.value()),
                f == split_event(cv.value(), cv_real),
                self.event_pq@ == old(self).event_pq@.add(
                    resv@.take(i as int).map_values(f).to_multiset(),
                ),
                self.vertex_vector == old(self).vertex_vector,
                self.vertex_queue == old(self).vertex_queue,
                self.event_queue == old(self).event_queue,
                self.initial_vertex_queue == old(self).initial_vertex_queue,
                self.orient == old(self).orient,
            decreases resv@.len() - i,
        {
            let c = resv[i];
            let x = Timeline::SplitEvent {
                time: c.0,
                location: c.1,
                anchor_vertex: anchor,
                anchor_real: cv_real,
            };
            proof {
                assert(resv@.take(i + 1).map_values(f) =~= resv@.take(i as int).map_values(f).push(
                    x,
                ));
                add_push(old(self).event_pq@, resv@.take(i as int).map_values(f), x);
            }
            self.event_pq.insert(x);
            i += 1;
        }
        proof {
            assert(resv@.take(resv@.len() as int) =~= resv@);
        }
    }

    /// Takes scheduled events from the queue, in the order in which they are
    /// due, until it has one that has not been overtaken, and returns that
    /// one; or nothing, when no such event is left.
    #[verifier::rlimit(50)]
    pub fn next_event(&mut self) -> (r: Option<Timeline>)
        requires
            old(self).wf(),
        ensures
            final(self).wf(),
            final(self).vertex_vector == old(self).vertex_vector,
            final(self).vertex_queue == old(self).vertex_queue,
            final(self).event_queue == old(self).event_queue,
            final(self).initial_vertex_queue == old(self).initial_vertex_queue,
            final(self).orient == old(self).orient,
            match r {
                None => final(self).event_pq@.len() == 0 && forall|y: Timeline|
                    old(self).event_pq@.contains(y) ==> is_stale(old(self).vertex_queue@, y),
                Some(x) => {
                    &&& !is_stale(old(self).vertex_queue@, x)
                    &&& final(self).event_pq@.insert(x).subset_of(old(self).event_pq@)
                    &&& forall|y: Timeline|
                        final(self).event_pq@.contains(y) ==> !y.precedes(x)
                    &&& forall|y: Timeline|
                        old(self).event_pq@.sub(final(self).event_pq@.insert(x)).contains(y)
                            ==> is_stale(old(self).vertex_queue@, y) && !x.precedes(y)
                },
            },
    {
        let ghost mut dropped: Multiset<Timeline> = Multiset::empty();
        let ghost q = self.vertex_queue@;
        let mut ret: Option<Timeline> = None;
        let mut going = true;
        proof {
            assert(self.event_pq@.add(dropped) =~= self.event_pq@);
        }
        while going
            invariant
                self.wf(),
                q == self.vertex_queue@,
                self.vertex_vector == old(self).vertex_vector,
                self.vertex_queue == old(self).vertex_queue,
                self.event_queue == old(self).event_queue,
                self.initial_vertex_queue == old(self).initial_vertex_queue,
                self.orient == old(self).orient,
                going ==> ret is None && old(self).event_pq@ == self.event_pq@.add(dropped),
                !going && ret is None ==> self.event_pq@.len() == 0 && old(self).event_pq@
                    == dropped,
                ret matches Some(x) ==> !going && !is_stale(q, x) && old(self).event_pq@
                    == self.event_pq@.add(dropped).insert(x) && forall|y: Timeline|
                    self.event_pq@.contains(y) ==> !y.precedes(x),
                forall|y: Timeline| dropped.contains(y) ==> is_stale(q, y),
                forall|y: Timeline, z: Timeline|
                    dropped.contains(y) && self.event_pq@.contains(z) ==> !z.precedes(y),
                forall|y: Timeline|
                    ret is Some && dropped.contains(y) ==> !ret.unwrap().precedes(y),
            decreases self.event_pq@.len() + if going { 1nat } else { 0nat },
        {
            let ghost pq = self.event_pq@;
            match self.event_pq.pop() {
                None => {
                    proof {
                        assert(old(self).event_pq@ =~= dropped);
                    }
                    going = false;
                },
                Some(x) => {
                    proof {
                        assert(pq.contains(x));
                        assert(pq.remove(x).len() < pq.len());
                        assert forall|z: Timeline| self.event_pq@.contains(z) implies pq.contains(
                            z,
                        ) by {}
                    }
                    if self.is_stale(&x) {
                        proof {
                            assert(old(self).event_pq@ =~= self.event_pq@.add(dropped.insert(x)));
                            dropped = dropped.insert(x);
                        }
                    } else {
                        proof {
                            assert(old(self).event_pq@ =~= self.event_pq@.add(dropped).insert(x));
                        }
                        ret = Some(x);
                        going = false;
                    }
                },
            }
        }
        proof {
            match ret {
                Some(x) => {
                    assert(old(self).event_pq@.sub(self.event_pq@.insert(x)) =~= dropped);
                    assert(self.event_pq@.insert(x).subset_of(old(self).event_pq@));
                },
                None => {},
            }
        }
        ret
    }
}


impl Wavefront {
    /// Fires the shrink event `x`: makes the new vertex the parent of the
    /// two that met, unlinks the left one of them from the queue, gives its
    /// right neighbour the new vertex and logs the event. Where the loop
    /// has vanished by this, the new vertex becomes a root and nothing is
    /// returned; else the slot that goes on is returned.
    #[verifier::rlimit(50)]
    pub fn fire_shrink(&mut self, x: &Timeline) -> (r: Option<IndexType>)
        requires
            old(self).wf(),
            *x is ShrinkEvent,
            !is_stale(old(self).vertex_queue@, *x),
        ensures
            final(self).wf(),
            final(self).vertex_vector@ == shrink_table(
                old(self).vertex_vector@,
                old(self).vertex_queue@,
                *x,
            ),
            final(self).vertex_queue@ == applied(
                old(self).vertex_queue@,
                shrink_logged(*x, old(self).vertex_vector@.len() as usize),
            ),
            final(self).event_queue@ == old(self).event_queue@.push(
                shrink_logged(*x, old(self).vertex_vector@.len() as usize),
            ),
            final(self).vertex_queue.is_compact(),
            final(self).event_pq == old(self).event_pq,
            final(self).initial_vertex_queue == old(self).initial_vertex_queue,
            final(self).orient == old(self).orient,
            r == match outcome(
                old(self).vertex_queue@,
                shrink_logged(*x, old(self).vertex_vector@.len() as usize),
            ).0 {
                Some(IndexType::PointerIndex(cv)) => Some(IndexType::PointerIndex(cv)),
                _ => None,
            },
    {
        let ghost t0 = self.vertex_vector@;
        let ghost q0 = self.vertex_queue@;
        let ghost log0 = self.event_queue@;
        let (time, left_vertex, left_real, right_real) = match *x {
            Timeline::ShrinkEvent { time, left_vertex, left_real, right_real, .. } => (
                time,
                left_vertex,
                left_real,
                right_real,
            ),
            Timeline::SplitEvent { .. } => {
                proof {
                    assert(false);
                }
                return None;
            },
        };
        proof {
            assert(is_active(q0, left_vertex.value() as int));
            assert(is_active(q0, x->right_vertex.value() as int));
        }
        let new_index = self.vertex_vector.len();
        self.vertex_vector.push(VertexType::Tree { parent: NO_PARENT });
        let mut a = self.vertex_vector[left_real];
        a.set_parent(new_index);
        self.vertex_vector.set(left_real, a);
        let mut b = self.vertex_vector[right_real];
        b.set_parent(new_index);
        self.vertex_vector.set(right_real, b);
        let ghost t1 = self.vertex_vector@;
        let new_event = Event::VertexEvent {
            time,
            merge_from: left_vertex.get_index(),
            merge_to: new_index,
        };
        proof {
            lemma_applied(q0, new_event);
        }
        let out = Skeleton::apply_event(&mut self.vertex_queue, &new_event);
        let ghost q1 = self.vertex_queue@;
        let r = match out.0 {
            Some(IndexType::RealIndex(rv)) => {
                proof {
                    lemma_collapse_left(q0, left_vertex.value() as int, new_index);
                    assert(rv < t1.len() && t1[rv as int] is Tree);
                }
                let mut c = self.vertex_vector[rv];
                c.set_parent(new_index);
                self.vertex_vector.set(rv, c);
                self.vertex_vector.set(new_index, VertexType::Root);
                None
            },
            Some(cv) => Some(cv),
            None => {
                proof {
                    assert(false);
                }
                None
            },
        };
        self.event_queue.push(new_event);
        self.vertex_queue.cleanup();
        proof {
            let t2 = self.vertex_vector@;
            assert(t2 =~= shrink_table(t0, q0, *x));
            assert(self.event_queue@.drop_last() =~= log0);
            assert forall|i: int| 0 <= i < t2.len() implies match #[trigger] t2[i] {
                VertexType::Tree { parent } => parent == NO_PARENT || (i < parent < t2.len() && (
                t2[parent as int] matches VertexType::Split { anchor, .. } ==> anchor == i)),
                VertexType::Split { anchor, split_left, split_right } => anchor < split_left
                    && split_left + 1 == split_right && split_right + 1 == i
                    && t2[split_left as int] is Tree && t2[split_right as int] is Tree,
                VertexType::Root => true,
            } by {
                if i < t0.len() {
                    match t0[i] {
                        VertexType::Tree { parent } => {
                            if t2[i] != t0[i] {
                                assert(t2[i] == VertexType::Tree { parent: new_index });
                            } else if parent != NO_PARENT {
                                assert(t0[parent as int] is Split ==> t2[parent as int]
                                    == t0[parent as int]);
                                assert(t2[parent as int] is Split ==> t0[parent as int] is Split);
                            }
                        },
                        VertexType::Split { split_left, split_right, .. } => {
                            assert(t2[i] == t0[i]);
                            assert(t0[split_left as int] is Tree);
                            assert(t0[split_right as int] is Tree);
                        },
                        VertexType::Root => {},
                    }
                }
            }
            assert forall|p: int| #[trigger] is_active(q1, p) implies q1[p].index < t2.len()
                && t2[q1[p].index as int] is Tree by {
                assert(is_active(q0, p));
                lemma_shrink_occupant(q0, time, left_vertex.value() as int, new_index, p);
                if q1[p].index != new_index {
                    assert(q1[p].index == q0[p].index);
                    assert(t0[q0[p].index as int] is Tree);
                }
            }
        }
        r
    }

    /// Fires the split event `x`, unless it is out of date. `turn` and
    /// `sightings` hold what is measured now of the vertex of the event and
    /// of each edge of `split_edges`, in that order. The event fires if the
    /// first strike found is the one for which it was scheduled: two new
    /// vertices and the mark of the split are recorded, the struck edge is
    /// cut, the event is logged, and the two slots that go on are returned.
    /// Else nothing changes and nothing is returned.
    #[verifier::rlimit(50)]
    pub fn fire_split(
        &mut self,
        x: &Timeline,
        turn: i32,
        sightings: &Vec<Option<Sighting>>,
    ) -> (r: Option<(IndexType, IndexType)>)
        requires
            old(self).wf(),
            *x is SplitEvent,
            !is_stale(old(self).vertex_queue@, *x),
        ensures
            final(self).wf(),
            final(self).vertex_queue.is_compact(),
            final(self).event_pq == old(self).event_pq,
            final(self).initial_vertex_queue == old(self).initial_vertex_queue,
            final(self).orient == old(self).orient,
            match struck(
                old(self).vertex_queue@,
                *x,
                turn as int,
                sightings@,
                old(self).orient,
            ) {
                None => {
                    &&& r is None
                    &&& final(self).vertex_vector@ == old(self).vertex_vector@
                    &&& final(self).vertex_queue@ == old(self).vertex_queue@
                    &&& final(self).event_queue@ == old(self).event_queue@
                },
                Some(c) => {
                    let e = split_logged(*x, c, old(self).vertex_vector@.len() as usize);
                    &&& r == Some(
                        (
                            IndexType::PointerIndex(x->anchor_vertex.value()),
                            IndexType::PointerIndex(old(self).vertex_queue@.len() as usize),
                        ),
                    )
                    &&& final(self).vertex_vector@ == split_table(
                        old(self).vertex_vector@,
                        x->anchor_real,
                    )
                    &&& final(self).vertex_queue@ == applied(old(self).vertex_queue@, e)
                    &&& final(self).event_queue@ == old(self).event_queue@.push(e)
                },
            },
    {
        let ghost t0 = self.vertex_vector@;
        let ghost q0 = self.vertex_queue@;
        let ghost log0 = self.event_queue@;
        let (time, location, anchor_vertex, anchor_real) = match *x {
            Timeline::SplitEvent { time, location, anchor_vertex, anchor_real } => (
                time,
                location,
                anchor_vertex,
                anchor_real,
            ),
            Timeline::ShrinkEvent { .. } => {
                proof {
                    assert(false);
                }
                return None;
            },
        };
        proof {
            assert(is_active(q0, anchor_vertex.value() as int));
        }
        self.vertex_queue.cleanup();
        let rv = find_split_vertex(
            anchor_vertex,
            &self.vertex_queue,
            turn,
            sightings,
            false,
            self.orient,
        );
        if rv.len() == 1 && rv[0].0 == time && rv[0].1 == location {
            let c = rv[0];
            self.vertex_vector.push(VertexType::Tree { parent: NO_PARENT });
            self.vertex_vector.push(VertexType::Tree { parent: NO_PARENT });
            let top = self.vertex_vector.len();
            let new_index1 = top - 2;
            let new_index2 = top - 1;
            self.vertex_vector.push(
                VertexType::Split {
                    anchor: anchor_real,
                    split_left: new_index1,
                    split_right: new_index2,
                },
            );
            let new_event = Event::EdgeEvent {
                time,
                split_from: anchor_vertex.get_index(),
                split_into: c.2.get_index(),
                split_to_left: new_index1,
                split_to_right: new_index2,
            };
            let out = Skeleton::apply_event(&mut self.vertex_queue, &new_event);
            let ghost q1 = self.vertex_queue@;
            proof {
                lemma_applied(q0, new_event);
            }
            let mut a = self.vertex_vector[anchor_real];
            a.set_parent(top);
            self.vertex_vector.set(anchor_real, a);
            self.event_queue.push(new_event);
            self.vertex_queue.cleanup();
            proof {
                let t2 = self.vertex_vector@;
                assert(t2 =~= split_table(t0, anchor_real));
                assert(self.event_queue@.drop_last() =~= log0);
                assert forall|i: int| 0 <= i < t2.len() implies match #[trigger] t2[i] {
                    VertexType::Tree { parent } => parent == NO_PARENT || (i < parent < t2.len()
                        && (t2[parent as int] matches VertexType::Split { anchor, .. } ==> anchor
                        == i)),
                    VertexType::Split { anchor, split_left, split_right } => anchor < split_left
                        && split_left + 1 == split_right && split_right + 1 == i
                        && t2[split_left as int] is Tree && t2[split_right as int] is Tree,
                    VertexType::Root => true,
                } by {
                    if i < t0.len() && i != anchor_real {
                        assert(t2[i] == t0[i]);
                        match t0[i] {
                            VertexType::Tree { parent } => {
                                if parent != NO_PARENT {
                                    assert(t0[parent as int] is Split ==> t2[parent as int]
                                        == t0[parent as int]);
                                    assert(t2[parent as int] is Split ==> t0[parent as int] is Split);
                                }
                            },
                            VertexType::Split { split_left, split_right, .. } => {
                                assert(t0[split_left as int] is Tree);
                                assert(t0[split_right as int] is Tree);
                            },
                            VertexType::Root => {},
                        }
                    }
                }
                assert forall|p: int| #[trigger] is_active(q1, p) implies q1[p].index < t2.len()
                    && t2[q1[p].index as int] is Tree by {
                    if p < q0.len() && p != anchor_vertex.value() {
                        assert(is_active(q0, p));
                        assert(q1[p].index == q0[p].index);
                        assert(t0[q0[p].index as int] is Tree);
                    }
                }
            }
            match out {
                (Some(cv1), Some(cv2)) => Some((cv1, cv2)),
                _ => {
                    proof {
                        assert(false);
                    }
                    None
                },
            }
        } else {
            None
        }
    }
}

/// Where a loop vanishes with a shrink, the vertex record that is reported
/// is that of an active slot, or the new one.
proof fn lemma_collapse_left(q: Seq<Node>, from: int, new_index: usize)
    requires
        links_wf(q),
        is_active(q, from),
    ensures
        ({
            let q1 = removed(q, from, new_index);
            let cv = q[from].right as int;
            let other = q1[cv].left as int;
            q1[cv].left == q1[cv].right ==> 0 <= other < q.len() && (q1[other].index == new_index
                || (is_active(q, other) && q1[other].index == q[other].index))
        }),
{
    let q1 = removed(q, from, new_index);
    let cv = q[from].right as int;
    assert(is_active(q, cv));
    assert(is_active(q, q[from].left as int));
    lemma_removed(q, from, new_index);
    if cv != from {
        assert(is_active(q1, cv));
        assert(is_active(q1, q1[cv].left as int));
    }
}

/// After a shrink an active slot holds the vertex record that it held
/// before, or the new one.
proof fn lemma_shrink_occupant(q: Seq<Node>, time: i64, from: int, new_index: usize, p: int)
    requires
        links_wf(q),
        is_active(q, from),
        0 <= p < q.len(),
    ensures
        ({
            let e = Event::VertexEvent { time, merge_from: from as usize, merge_to: new_index };
            applied(q, e)[p].index == new_index || applied(q, e)[p].index == q[p].index
        }),
{
    assert(is_active(q, q[from].right as int));
    assert(is_active(q, q[from].left as int));
    lemma_removed(q, from, new_index);
}

} // verus!
