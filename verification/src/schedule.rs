//! What the simulation looks at when it schedules events: the pairs of
//! neighbours that may meet, the edges that a vertex may strike, and the
//! order of the places at which it would strike them.
use crate::event::{before7, Key7, Location};
use crate::vertex_queue::{
    filter_push, is_active, visit_ok, walk_of, IndexType, Node, VertexQueue, Visit,
};
use vstd::prelude::*;

verus! {

/// Two neighbouring slots, left and right, and the vertex records in them.
pub type Pair = (IndexType, IndexType, usize, usize);

/// An edge of the wavefront: the slot at which it starts, the vertex record
/// in that slot, and the vertex record in the slot at which it ends.
pub type Edge = (IndexType, usize, usize);

/// A place at which a vertex would strike an edge: the key of the time, the
/// key of the place, the slot at which the edge starts and the vertex record
/// in that slot.
pub type Candidate = (i64, Location, IndexType, usize);

/// Where and when two neighbours meet, in keys.
#[derive(Clone, Copy, Debug, PartialEq, Eq, Structural)]
pub struct Meeting {
    pub time: i64,
    pub location: Location,
    pub tie_break: i64,
}

/// What is measured of the place at which the trajectory of a vertex
/// crosses the line of an edge: the keys of the time and of the place, and
/// on which side the place lies of the trajectory of the vertex at which the
/// edge starts (`from`), of the edge itself (`side`), and of the trajectory
/// of the vertex at which the edge ends (`to`): positive for left, negative
/// for right, zero for on it.
#[derive(Clone, Copy, Debug, PartialEq, Eq, Structural)]
pub struct Sighting {
    pub time: i64,
    pub location: Location,
    pub from: i32,
    pub side: i32,
    pub to: i32,
}

/// A vertex can strike an edge only where the wavefront turns away from the
/// side to which it moves: to the left where it moves inward (`orient`), to
/// the right where it moves outward. `turn` is the side to which the right
/// edge of the vertex turns from its left edge: positive for left, negative
/// for right, zero for straight on.
pub open spec fn reflex(orient: bool, turn: int) -> bool {
    if orient {
        turn > 0
    } else {
        turn < 0
    }
}

/// A place at which the trajectory of a vertex crosses the line of an edge
/// counts as a place where the vertex strikes the edge. `side`, `from` and
/// `to` say on which side the place lies of the edge, of the trajectory of
/// the vertex at which the edge starts, and of the trajectory of the vertex
/// at which it ends: positive for left, negative for right, zero for on it.
/// While the wavefront is being set up the place must not lie behind the
/// edge. Later it must also lie between the two trajectories, and not on
/// the first.
pub open spec fn in_reach(is_init: bool, orient: bool, from: int, side: int, to: int) -> bool {
    if orient {
        side >= 0 && (is_init || (from < 0 && to >= 0))
    } else {
        side <= 0 && (is_init || (from > 0 && to <= 0))
    }
}

/// Returns whether a vertex whose edges turn by `turn` can strike an edge.
pub fn is_reflex(orient: bool, turn: i32) -> (r: bool)
    ensures
        r == reflex(orient, turn as int),
{
    if orient {
        turn > 0
    } else {
        turn < 0
    }
}

/// Returns whether a place that lies as `from`, `side` and `to` say counts
/// as a place where the vertex strikes the edge.
pub fn is_in_reach(is_init: bool, orient: bool, from: i32, side: i32, to: i32) -> (r: bool)
    ensures
        r == in_reach(is_init, orient, from as int, side as int, to as int),
{
    if orient {
        side >= 0 && (is_init || (from < 0 && to >= 0))
    } else {
        side <= 0 && (is_init || (from > 0 && to <= 0))
    }
}

/// The pairs of neighbours round slot `cv` that may meet: none where the
/// loop has fewer than three slots; else `cv` with its right neighbour and,
/// unless the wavefront is only being set up, the left neighbour with `cv`.
pub open spec fn shrink_pairs_of(q: Seq<Node>, cv: int, is_init: bool) -> Seq<Pair> {
    let l = q[cv].left;
    let r = q[cv].right;
    let first = (
        IndexType::PointerIndex(cv as usize),
        IndexType::PointerIndex(r),
        q[cv].index,
        q[r as int].index,
    );
    let second = (
        IndexType::PointerIndex(l),
        IndexType::PointerIndex(cv as usize),
        q[l as int].index,
        q[cv].index,
    );
    if l == r {
        Seq::empty()
    } else if is_init {
        seq![first]
    } else {
        seq![first, second]
    }
}

/// The edge that starts at the visited slot touches neither slot `cv` nor
/// one of its two neighbours.
pub open spec fn apart(q: Seq<Node>, cv: int) -> spec_fn(Visit) -> bool {
    |v: Visit|
        {
            let sv = v.1.value();
            let srv = q[sv as int].right;
            !(sv == cv || sv == q[cv].right || srv == cv || srv == q[cv].left)
        }
}

/// The edge that starts at the visited slot.
pub open spec fn edge_of(q: Seq<Node>) -> spec_fn(Visit) -> Edge {
    |v: Visit| (v.1, v.2, q[q[v.1.value() as int].right as int].index)
}

/// The edges that the vertex in slot `cv` may strike: those of the walk over
/// the queue that are apart from it, in the order of the walk.
pub open spec fn split_edges_of(q: Seq<Node>, cv: int) -> Seq<Edge> {
    walk_of(q).filter(apart(q, cv)).map_values(edge_of(q))
}

/// The places at which the edges are struck: for each edge the sighting of
/// the same position, where there is one and it is in reach.
pub open spec fn candidates(
    edges: Seq<Edge>,
    sightings: Seq<Option<Sighting>>,
    is_init: bool,
    orient: bool,
) -> Seq<Candidate>
    decreases edges.len(),
{
    if edges.len() == 0 {
        Seq::empty()
    } else {
        let before = candidates(edges.drop_last(), sightings, is_init, orient);
        let i = edges.len() - 1;
        if i < sightings.len() && sightings[i] is Some && in_reach(
            is_init,
            orient,
            sightings[i].unwrap().from as int,
            sightings[i].unwrap().side as int,
            sightings[i].unwrap().to as int,
        ) {
            before.push(
                (sightings[i].unwrap().time, sightings[i].unwrap().location, edges[i].0, edges[i].1),
            )
        } else {
            before
        }
    }
}

/// The key that orders candidates: time, place, slot, vertex record. A real
/// index counts as less than a pointer index.
pub open spec fn candidate_key(c: Candidate) -> Key7 {
    (
        c.0 as int,
        c.1.x as int,
        c.1.y as int,
        match c.2 {
            IndexType::RealIndex(_) => 0,
            IndexType::PointerIndex(_) => 1,
        },
        c.2.value() as int,
        c.3 as int,
        0,
    )
}

/// Candidate `a` comes strictly before candidate `b`.
pub open spec fn candidate_before(a: Candidate, b: Candidate) -> bool {
    before7(candidate_key(a), candidate_key(b))
}

/// No candidate of `s` comes before one that stands earlier in `s`.
pub open spec fn ascending(s: Seq<Candidate>) -> bool {
    forall|i: int, j: int| 0 <= i < j < s.len() ==> !candidate_before(#[trigger] s[j], #[trigger] s[i])
}

/// The place of `c` in the ascending sequence `s`: behind everything that
/// does not come after it.
pub open spec fn place(s: Seq<Candidate>, c: Candidate) -> int
    decreases s.len(),
{
    if s.len() > 0 && candidate_before(c, s.last()) {
        place(s.drop_last(), c)
    } else {
        s.len() as int
    }
}

/// The candidates in ascending order; of two with one key the one that
/// stood first stays first.
pub open spec fn arranged(cands: Seq<Candidate>) -> Seq<Candidate>
    decreases cands.len(),
{
    if cands.len() == 0 {
        Seq::empty()
    } else {
        let s = arranged(cands.drop_last());
        s.insert(place(s, cands.last()), cands.last())
    }
}

/// What a search for the struck edge returns: every candidate in ascending
/// order while the wavefront is being set up, and later only the first.
pub open spec fn found(cands: Seq<Candidate>, is_init: bool) -> Seq<Candidate> {
    if is_init || cands.len() == 0 {
        arranged(cands)
    } else {
        arranged(cands).take(1)
    }
}

/// The places at which the vertex in slot `cv` of the queue `q`, whose edges
/// turn by `turn`, strikes an edge: none unless the vertex is reflex; else
/// what is found among the sightings, one for each edge that the vertex may
/// strike, that are in reach.
pub open spec fn strikes(
    q: Seq<Node>,
    cv: int,
    turn: int,
    sightings: Seq<Option<Sighting>>,
    is_init: bool,
    orient: bool,
) -> Seq<Candidate> {
    if reflex(orient, turn) {
        found(candidates(split_edges_of(q, cv), sightings, is_init, orient), is_init)
    } else {
        Seq::empty()
    }
}

/// `place` lies inside the sequence, behind what does not come after `c`
/// and before what does.
pub proof fn lemma_place(s: Seq<Candidate>, c: Candidate)
    requires
        ascending(s),
    ensures
        0 <= place(s, c) <= s.len(),
        forall|i: int| 0 <= i < place(s, c) ==> !candidate_before(c, #[trigger] s[i]),
        forall|i: int| place(s, c) <= i < s.len() ==> candidate_before(c, #[trigger] s[i]),
    decreases s.len(),
{
    if s.len() > 0 {
        let init = s.drop_last();
        assert forall|i: int, j: int| 0 <= i < j < init.len() implies !candidate_before(
            #[trigger] init[j],
            #[trigger] init[i],
        ) by {
            assert(init[i] == s[i] && init[j] == s[j]);
        }
        if candidate_before(c, s.last()) {
            lemma_place(init, c);
            assert forall|i: int| 0 <= i < place(s, c) implies !candidate_before(c, #[trigger] s[i]) by {
                assert(s[i] == init[i]);
            }
            assert forall|i: int| place(s, c) <= i < s.len() implies candidate_before(
                c,
                #[trigger] s[i],
            ) by {
                if i < init.len() {
                    assert(s[i] == init[i]);
                }
            }
        } else {
            assert forall|i: int| 0 <= i < s.len() implies !candidate_before(c, #[trigger] s[i]) by {
                if i < s.len() - 1 {
                    assert(!candidate_before(s[s.len() - 1], s[i]));
                }
            }
        }
    }
}

/// The arranged candidates are in ascending order and are the candidates
/// given, each as often as it was given.
pub proof fn lemma_arranged(cands: Seq<Candidate>)
    ensures
        ascending(arranged(cands)),
        arranged(cands).len() == cands.len(),
        arranged(cands).to_multiset() == cands.to_multiset(),
    decreases cands.len(),
{
    broadcast use vstd::seq_lib::group_to_multiset_ensures;

    if cands.len() == 0 {
        assert(arranged(cands).to_multiset() =~= cands.to_multiset());
    } else {
        let init = cands.drop_last();
        let c = cands.last();
        let s = arranged(init);
        lemma_arranged(init);
        lemma_place(s, c);
        let p = place(s, c);
        let t = s.insert(p, c);
        assert forall|i: int, j: int| 0 <= i < j < t.len() implies !candidate_before(
            #[trigger] t[j],
            #[trigger] t[i],
        ) by {
            if j < p {
                assert(t[i] == s[i] && t[j] == s[j]);
            } else if j == p {
                assert(t[i] == s[i]);
            } else if i < p {
                assert(t[i] == s[i] && t[j] == s[j - 1]);
            } else if i == p {
                assert(t[j] == s[j - 1]);
            } else {
                assert(t[i] == s[i - 1] && t[j] == s[j - 1]);
            }
        }
        assert(cands =~= init.push(c));
        assert(t.to_multiset() =~= cands.to_multiset());
    }
}

/// What is found once the wavefront moves is the candidate that comes first
/// of all, if there is any candidate.
pub proof fn lemma_found_first(cands: Seq<Candidate>)
    requires
        cands.len() > 0,
    ensures
        found(cands, false).len() == 1,
        cands.contains(found(cands, false)[0]),
        forall|i: int| 0 <= i < cands.len() ==> !candidate_before(#[trigger] cands[i], found(cands, false)[0]),
{
    broadcast use vstd::seq_lib::group_to_multiset_ensures;

    lemma_arranged(cands);
    let s = arranged(cands);
    assert(s.to_multiset().contains(s[0]));
    assert forall|i: int| 0 <= i < cands.len() implies !candidate_before(#[trigger] cands[i], s[0]) by {
        assert(cands.to_multiset().contains(cands[i]));
        assert(s.contains(cands[i]));
        let j = choose|j: int| 0 <= j < s.len() && s[j] == cands[i];
        if j > 0 {
            assert(!candidate_before(s[j], s[0]));
        }
    }
}

/// Returns whether candidate `a` comes strictly before candidate `b`.
pub fn is_candidate_before(a: &Candidate, b: &Candidate) -> (r: bool)
    ensures
        r == candidate_before(*a, *b),
{
    let ka: u8 = match a.2 {
        IndexType::RealIndex(_) => 0,
        IndexType::PointerIndex(_) => 1,
    };
    let kb: u8 = match b.2 {
        IndexType::RealIndex(_) => 0,
        IndexType::PointerIndex(_) => 1,
    };
    if a.0 != b.0 {
        a.0 < b.0
    } else if a.1.x != b.1.x {
        a.1.x < b.1.x
    } else if a.1.y != b.1.y {
        a.1.y < b.1.y
    } else if ka != kb {
        ka < kb
    } else if a.2.get_index() != b.2.get_index() {
        a.2.get_index() < b.2.get_index()
    } else {
        a.3 < b.3
    }
}

/// Mapping a sequence that ends in `a` maps what goes before and then `a`.
proof fn map_push<A, B>(s: Seq<A>, f: spec_fn(A) -> B, a: A)
    ensures
        s.push(a).map_values(f) == s.map_values(f).push(f(a)),
{
    assert(s.push(a).map_values(f) =~= s.map_values(f).push(f(a)));
}

/// Returns the pairs of neighbours round slot `cv` that may meet.
pub fn shrink_pairs(cv: IndexType, vertex_queue: &VertexQueue, is_init: bool) -> (r: Vec<Pair>)
    requires
        vertex_queue.wf(),
        is_active(vertex_queue@, cv.value() as int),
    ensures
        r@ == shrink_pairs_of(vertex_queue@, cv.value() as int, is_init),
{
    let mut ret: Vec<Pair> = Vec::new();
    let c = IndexType::PointerIndex(cv.get_index());
    let rv = vertex_queue.rv(c);
    let lv = vertex_queue.lv(c);
    proof {
        assert(is_active(vertex_queue@, rv.value() as int));
        assert(is_active(vertex_queue@, lv.value() as int));
    }
    if rv == lv {
        assert(ret@ =~= shrink_pairs_of(vertex_queue@, cv.value() as int, is_init));
        return ret;
    }
    ret.push((c, rv, vertex_queue.get_real_index(c), vertex_queue.get_real_index(rv)));
    if !is_init {
        let back = vertex_queue.rv(lv);
        ret.push((lv, back, vertex_queue.get_real_index(lv), vertex_queue.get_real_index(back)));
    }
    assert(ret@ =~= shrink_pairs_of(vertex_queue@, cv.value() as int, is_init));
    ret
}

/// Returns the edges that the vertex in slot `cv` may strike.
#[verifier::rlimit(50)]
pub fn split_edges(cv: IndexType, vertex_queue: &VertexQueue) -> (r: Vec<Edge>)
    requires
        vertex_queue.wf(),
        is_active(vertex_queue@, cv.value() as int),
    ensures
        r@ == split_edges_of(vertex_queue@, cv.value() as int),
        forall|i: int|
            0 <= i < r@.len() ==> (#[trigger] r@[i]).0 is PointerIndex && is_active(
                vertex_queue@,
                r@[i].0.value() as int,
            ) && r@[i].0.value() != cv.value(),
{
    let walk = vertex_queue.iter();
    let ghost q = vertex_queue@;
    let ghost keep = apart(q, cv.value() as int);
    let ghost f = edge_of(q);
    let mut ret: Vec<Edge> = Vec::new();
    let c = IndexType::PointerIndex(cv.get_index());
    let right = vertex_queue.rv(c);
    let left = vertex_queue.lv(c);
    let mut i: usize = 0;
    proof {
        assert(walk@.take(0) =~= Seq::<Visit>::empty());
        assert(Seq::<Visit>::empty().filter(keep) =~= Seq::<Visit>::empty()) by {
            reveal(Seq::filter);
        }
    }
    while i < walk.len()
        invariant
            i <= walk@.len(),
            vertex_queue.wf(),
            q == vertex_queue@,
            is_active(q, cv.value() as int),
            c == IndexType::PointerIndex(cv.value()),
            right == IndexType::PointerIndex(q[cv.value() as int].right),
            left == IndexType::PointerIndex(q[cv.value() as int].left),
            keep == apart(q, cv.value() as int),
            f == edge_of(q),
            forall|k: int| 0 <= k < walk@.len() ==> visit_ok(q, #[trigger] walk@[k]),
            ret@ == walk@.take(i as int).filter(keep).map_values(f),
            forall|k: int|
                0 <= k < ret@.len() ==> (#[trigger] ret@[k]).0 is PointerIndex && is_active(
                    q,
                    ret@[k].0.value() as int,
                ) && ret@[k].0.value() != cv.value(),
        decreases walk@.len() - i,
    {
        let v = walk[i];
        let sv = v.1;
        proof {
            assert(visit_ok(q, walk@[i as int]));
            assert(is_active(q, sv.value() as int));
            assert(walk@.take(i + 1) =~= walk@.take(i as int).push(v));
            filter_push(walk@.take(i as int), keep, v);
        }
        let srv = vertex_queue.rv(sv);
        if !(sv == c || sv == right || srv == c || srv == left) {
            let srv_real = vertex_queue.get_real_index(srv);
            proof {
                map_push(walk@.take(i as int).filter(keep), f, v);
            }
            ret.push((sv, v.2, srv_real));
        }
        i += 1;
    }
    proof {
        assert(walk@.take(walk@.len() as int) =~= walk@);
    }
    ret
}

/// Returns the places at which the vertex in slot `cv`, whose edges turn by
/// `turn`, strikes an edge. `sightings` holds, for each edge of
/// `split_edges` in that order, what was measured where the trajectory of the
/// vertex crosses the line of the edge, or nothing where it does not cross
/// it. While the wavefront is being set up (`is_init`) every strike is
/// returned, in ascending order; later only the first.
#[verifier::rlimit(50)]
pub fn find_split_vertex(
    cv: IndexType,
    vertex_queue: &VertexQueue,
    turn: i32,
    sightings: &Vec<Option<Sighting>>,
    is_init: bool,
    orient: bool,
) -> (r: Vec<Candidate>)
    requires
        vertex_queue.wf(),
        is_active(vertex_queue@, cv.value() as int),
    ensures
        r@ == strikes(vertex_queue@, cv.value() as int, turn as int, sightings@, is_init, orient),
        forall|i: int|
            0 <= i < r@.len() ==> (#[trigger] r@[i]).2 is PointerIndex && is_active(
                vertex_queue@,
                r@[i].2.value() as int,
            ) && r@[i].2.value() != cv.value(),
{
    let mut ret: Vec<Candidate> = Vec::new();
    if !is_reflex(orient, turn) {
        return ret;
    }
    let edges = split_edges(cv, vertex_queue);
    let ghost q = vertex_queue@;
    let mut i: usize = 0;
    proof {
        assert(edges@.take(0) =~= Seq::<Edge>::empty());
    }
    while i < edges.len()
        invariant
            i <= edges@.len(),
            ret@ == arranged(candidates(edges@.take(i as int), sightings@, is_init, orient)),
            forall|k: int|
                0 <= k < edges@.len() ==> (#[trigger] edges@[k]).0 is PointerIndex && is_active(
                    q,
                    edges@[k].0.value() as int,
                ) && edges@[k].0.value() != cv.value(),
            forall|k: int|
                0 <= k < ret@.len() ==> (#[trigger] ret@[k]).2 is PointerIndex && is_active(
                    q,
                    ret@[k].2.value() as int,
                ) && ret@[k].2.value() != cv.value(),
        decreases edges@.len() - i,
    {
        proof {
            assert(edges@.take(i + 1).drop_last() =~= edges@.take(i as int));
            assert(edges@.take(i + 1).last() == edges@[i as int]);
        }
        if i < sightings.len() {
            if let Some(s) = sightings[i] {
                if is_in_reach(is_init, orient, s.from, s.side, s.to) {
                    let c: Candidate = (s.time, s.location, edges[i].0, edges[i].1);
                    let mut pos = ret.len();
                    let ghost before = ret@;
                    proof {
                        assert(before.take(pos as int) =~= before);
                        assert(candidates(
                            edges@.take(i + 1),
                            sightings@,
                            is_init,
                            orient,
                        ).drop_last() =~= candidates(
                            edges@.take(i as int),
                            sightings@,
                            is_init,
                            orient,
                        ));
                    }
                    while pos > 0 && is_candidate_before(&c, &ret[pos - 1])
                        invariant
                            pos <= ret@.len(),
                            ret@ == before,
                            place(before, c) == place(before.take(pos as int), c),
                        decreases pos,
                    {
                        proof {
                            assert(before.take(pos as int).drop_last() =~= before.take(pos - 1));
                        }
                        pos -= 1;
                    }
                    ret.insert(pos, c);
                    proof {
                        assert forall|k: int| 0 <= k < ret@.len() implies (
                        #[trigger] ret@[k]).2 is PointerIndex && is_active(
                            q,
                            ret@[k].2.value() as int,
                        ) && ret@[k].2.value() != cv.value() by {
                            if k < pos {
                                assert(ret@[k] == before[k]);
                            } else if k > pos {
                                assert(ret@[k] == before[k - 1]);
                            } else {
                                assert(edges@[i as int].0 == c.2);
                            }
                        }
                    }
                }
            }
        }
        i += 1;
    }
    proof {
        assert(edges@.take(edges@.len() as int) =~= edges@);
        lemma_arranged(candidates(edges@, sightings@, is_init, orient));
    }
    if !is_init && ret.len() > 0 {
        ret.truncate(1);
        proof {
            assert(ret@ =~= arranged(candidates(edges@, sightings@, is_init, orient)).take(1));
        }
    }
    ret
}

} // verus!
