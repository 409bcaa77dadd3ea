//! From the wavefront of a moment to the outline of the offset polygon: the
//! rings of the wavefront, and which ring is a hole of which.
use crate::skeleton::{due, replayed, Skeleton};
use crate::vertex_queue::{visit_ok, walk_of, VertexQueue, Visit};
use vstd::prelude::*;

verus! {

/// The rings of a walk: the vertex records of each loop, in the order of the
/// walk. A new ring begins wherever the head of the loop changes.
pub open spec fn rings_of(walk: Seq<Visit>) -> Seq<Seq<usize>>
    decreases walk.len(),
{
    if walk.len() == 0 {
        Seq::empty()
    } else {
        let before = rings_of(walk.drop_last());
        let v = walk.last();
        if walk.len() == 1 || walk[walk.len() - 2].0 != v.0 {
            before.push(seq![v.2])
        } else {
            before.update(before.len() - 1, before.last().push(v.2))
        }
    }
}

/// What a vector of rings holds.
pub open spec fn ring_views(v: Seq<Vec<usize>>) -> Seq<Seq<usize>> {
    Seq::new(v.len(), |k: int| v[k]@)
}

/// One more visit adds a corner to the last ring, or begins a new ring
/// where the head of the loop changes.
proof fn lemma_ring_grows(walk: Seq<Visit>, i: int)
    requires
        0 <= i < walk.len(),
    ensures
        rings_of(walk.take(i + 1)) == ({
            let before = rings_of(walk.take(i));
            if i == 0 || walk[i - 1].0 != walk[i].0 {
                before.push(seq![walk[i].2])
            } else {
                before.update(before.len() - 1, before.last().push(walk[i].2))
            }
        }),
{
    let grown = walk.take(i + 1);
    assert(grown.drop_last() =~= walk.take(i));
    assert(grown.last() == walk[i]);
    if i > 0 {
        assert(grown[grown.len() - 2] == walk[i - 1]);
    }
}

/// The rings of a skeleton at the moment `d`: what `get_vertex_queue` and
/// then `apply_vertex_queue` make of it.
pub open spec fn outline(skeleton: &Skeleton, d: i64) -> Seq<Seq<usize>> {
    rings_of(
        walk_of(
            replayed(
                skeleton.initial_vertex_queue@,
                skeleton.event_queue@.take(due(skeleton.event_queue@, d)),
            ),
        ),
    )
}

/// Reading the rings of a skeleton at one moment twice gives the same rings
/// twice: they depend on the skeleton and the moment alone.
pub proof fn lemma_reconstruction_repeats(
    skeleton: &Skeleton,
    d: i64,
    first_queue: &VertexQueue,
    first: Seq<Vec<usize>>,
    second_queue: &VertexQueue,
    second: Seq<Vec<usize>>,
)
    requires
        first_queue@ == replayed(
            skeleton.initial_vertex_queue@,
            skeleton.event_queue@.take(due(skeleton.event_queue@, d)),
        ),
        second_queue@ == replayed(
            skeleton.initial_vertex_queue@,
            skeleton.event_queue@.take(due(skeleton.event_queue@, d)),
        ),
        ring_views(first) == rings_of(walk_of(first_queue@)),
        ring_views(second) == rings_of(walk_of(second_queue@)),
    ensures
        ring_views(first) == outline(skeleton, d),
        ring_views(second) == ring_views(first),
        first.len() == second.len(),
        forall|k: int| 0 <= k < first.len() ==> #[trigger] first[k]@ == second[k]@,
{
    assert(ring_views(first).len() == first.len());
    assert(ring_views(second).len() == second.len());
    assert forall|k: int| 0 <= k < first.len() implies #[trigger] first[k]@ == second[k]@ by {
        assert(ring_views(first)[k] == first[k]@);
        assert(ring_views(second)[k] == second[k]@);
    }
}

impl Skeleton {
    /// Returns the rings of the wavefront held by `vertex_queue`: for each
    /// loop, from its least slot rightwards, the vertex records that make
    /// its corners.
    #[verifier::rlimit(50)]
    pub fn apply_vertex_queue(&self, vertex_queue: &VertexQueue) -> (r: Vec<Vec<usize>>)
        requires
            vertex_queue.wf(),
        ensures
            ring_views(r@) == rings_of(walk_of(vertex_queue@)),
    {
        let walk = vertex_queue.iter();
        let n = vertex_queue.content.len();
        let ghost q = vertex_queue@;
        let mut lsv: Vec<Vec<usize>> = Vec::new();
        let mut crdv: Vec<usize> = Vec::new();
        let mut cur_vidx: usize = usize::MAX;
        let mut i: usize = 0;
        proof {
            assert(walk@.take(0) =~= Seq::<Visit>::empty());
        }
        while i < walk.len()
            invariant
                i <= walk@.len(),
                n == q.len(),
                forall|k: int| 0 <= k < walk@.len() ==> visit_ok(q, #[trigger] walk@[k]),
                i == 0 ==> cur_vidx == usize::MAX && lsv@.len() == 0 && crdv@.len() == 0,
                i > 0 ==> cur_vidx == walk@[i - 1].0 && rings_of(walk@.take(i as int))
                    == ring_views(lsv@).push(crdv@),
            decreases walk@.len() - i,
        {
            let v = walk[i];
            let vidx = v.0;
            let idx = v.2;
            proof {
                assert(visit_ok(q, walk@[i as int]));
                if i > 0 {
                    assert(visit_ok(q, walk@[i - 1]));
                }
                lemma_ring_grows(walk@, i as int);
            }
            let ghost views = ring_views(lsv@);
            let ghost held = crdv@;
            if vidx != cur_vidx {
                if cur_vidx < usize::MAX {
                    lsv.push(crdv);
                    proof {
                        assert(ring_views(lsv@) =~= views.push(held));
                    }
                }
                cur_vidx = vidx;
                crdv = Vec::new();
                crdv.push(idx);
                proof {
                    assert(crdv@ =~= seq![idx]);
                    if i == 0 {
                        assert(ring_views(lsv@) =~= Seq::<Seq<usize>>::empty());
                    }
                }
            } else {
                crdv.push(idx);
                proof {
                    assert(views.push(held).update(views.len() as int, held.push(idx))
                        =~= views.push(held.push(idx)));
                }
            }
            i += 1;
        }
        proof {
            assert(walk@.take(walk@.len() as int) =~= walk@);
        }
        let ghost views = ring_views(lsv@);
        if cur_vidx < usize::MAX {
            let ghost held = crdv@;
            lsv.push(crdv);
            proof {
                assert(ring_views(lsv@) =~= views.push(held));
            }
        } else {
            proof {
                assert(ring_views(lsv@) =~= Seq::<Seq<usize>>::empty());
            }
        }
        lsv
    }
}

/// The sense in which a ring runs.
#[derive(Clone, Copy, Debug, PartialEq, Eq, Structural)]
pub enum Winding {
    Clockwise,
    CounterClockwise,
}

/// The table `c` says that ring `e` contains ring `j`. What the table does
/// not hold counts as no.
pub open spec fn holds(c: Seq<Vec<bool>>, e: int, j: int) -> bool {
    0 <= e < c.len() && 0 <= j < c[e]@.len() && c[e]@[j]
}

/// Ring `i` is an exterior: it runs counter-clockwise.
pub open spec fn is_exterior(w: Seq<Option<Winding>>) -> spec_fn(int) -> bool {
    |i: int| 0 <= i < w.len() && w[i] == Some(Winding::CounterClockwise)
}

/// The first exterior from ring `from` on that contains ring `j`, or the
/// number of rings if there is none.
pub open spec fn first_host(w: Seq<Option<Winding>>, c: Seq<Vec<bool>>, j: int, from: int) -> int
    decreases w.len() - from,
{
    if from >= w.len() {
        w.len() as int
    } else if from >= 0 && w[from] == Some(Winding::CounterClockwise) && holds(c, from, j) {
        from
    } else {
        first_host(w, c, j, from + 1)
    }
}

/// Ring `j` is a hole of the exterior `e`: it runs clockwise, and `e` is the
/// first exterior that contains it.
pub open spec fn is_hole_of(w: Seq<Option<Winding>>, c: Seq<Vec<bool>>, e: int) -> spec_fn(
    int,
) -> bool {
    |j: int| 0 <= j < w.len() && w[j] == Some(Winding::Clockwise) && first_host(w, c, j, 0) == e
}

/// The numbers below `n` that `keep` accepts, in increasing order.
pub open spec fn picked(n: int, keep: spec_fn(int) -> bool) -> Seq<usize>
    decreases n,
{
    if n <= 0 {
        Seq::empty()
    } else if keep(n - 1) {
        picked(n - 1, keep).push((n - 1) as usize)
    } else {
        picked(n - 1, keep)
    }
}

/// `picked` holds just the accepted numbers, in strictly increasing order.
pub proof fn lemma_picked(n: int, keep: spec_fn(int) -> bool)
    requires
        0 <= n <= usize::MAX,
    ensures
        forall|k: int| 0 <= k < picked(n, keep).len() ==> #[trigger] picked(n, keep)[k] < n && keep(picked(n, keep)[k] as int),
        forall|a: int, b: int| 0 <= a < b < picked(n, keep).len() ==> #[trigger] picked(n, keep)[a] < #[trigger] picked(n, keep)[b],
        forall|i: int| 0 <= i < n && #[trigger] keep(i) ==> picked(n, keep).contains(i as usize),
    decreases n,
{
    if n > 0 {
        lemma_picked(n - 1, keep);
        let before = picked(n - 1, keep);
        let all = picked(n, keep);
        assert forall|i: int| 0 <= i < n && #[trigger] keep(i) implies all.contains(i as usize) by {
            if i < n - 1 {
                assert(before.contains(i as usize));
                let k = choose|k: int| 0 <= k < before.len() && before[k] == i as usize;
                assert(all[k] == i as usize);
            } else {
                assert(all[all.len() - 1] == i as usize);
            }
        }
    }
}

/// The first host found is an exterior that contains the ring and has no
/// exterior before it that does.
pub proof fn lemma_first_host(w: Seq<Option<Winding>>, c: Seq<Vec<bool>>, j: int, from: int)
    requires
        0 <= from <= w.len(),
    ensures
        from <= first_host(w, c, j, from) <= w.len(),
        first_host(w, c, j, from) < w.len() ==> is_exterior(w)(first_host(w, c, j, from)) && holds(
            c,
            first_host(w, c, j, from),
            j,
        ),
        forall|e: int|
            from <= e < first_host(w, c, j, from) ==> !(is_exterior(w)(e) && #[trigger] holds(c, e, j)),
    decreases w.len() - from,
{
    if from < w.len() && !(w[from] == Some(Winding::CounterClockwise) && holds(c, from, j)) {
        lemma_first_host(w, c, j, from + 1);
    }
}

/// Returns the polygons of an outline: for each ring that runs
/// counter-clockwise, in the order of the rings, its number and the numbers
/// of its holes. A ring that runs clockwise is a hole of the first exterior
/// that, by `contains`, contains it, and of none if no exterior does.
/// `contains[e][j]` says whether ring `e` contains ring `j`.
#[verifier::rlimit(50)]
pub fn assemble(windings: &Vec<Option<Winding>>, contains: &Vec<Vec<bool>>) -> (r: Vec<
    (usize, Vec<usize>),
>)
    ensures
        r@.len() == picked(windings@.len() as int, is_exterior(windings@)).len(),
        forall|k: int|
            0 <= k < r@.len() ==> (#[trigger] r@[k]).0 == picked(
                windings@.len() as int,
                is_exterior(windings@),
            )[k] && r@[k].1@ == picked(
                windings@.len() as int,
                is_hole_of(windings@, contains@, r@[k].0 as int),
            ),
{
    let n = windings.len();
    let ghost w = windings@;
    let ghost c = contains@;
    let mut host: Vec<usize> = Vec::new();
    let mut j: usize = 0;
    while j < n
        invariant
            j <= n,
            n == w.len(),
            w == windings@,
            c == contains@,
            host@.len() == j,
            forall|t: int| 0 <= t < j ==> #[trigger] host@[t] == first_host(w, c, t, 0),
        decreases n - j,
    {
        let mut e: usize = 0;
        let mut at: usize = n;
        while e < n && at == n
            invariant
                e <= n,
                n == w.len(),
                w == windings@,
                c == contains@,
                j < n,
                at == n ==> first_host(w, c, j as int, 0) == first_host(w, c, j as int, e as int),
                at != n ==> at == first_host(w, c, j as int, 0) && at < n,
            decreases n - e + if at == n { 1nat } else { 0nat },
        {
            let exterior = match windings[e] {
                Some(Winding::CounterClockwise) => true,
                _ => false,
            };
            if exterior && e < contains.len() && j < contains[e].len() && contains[e][j] {
                at = e;
            } else {
                e += 1;
            }
        }
        host.push(at);
        j += 1;
    }
    let mut res: Vec<(usize, Vec<usize>)> = Vec::new();
    let mut e: usize = 0;
    while e < n
        invariant
            e <= n,
            n == w.len(),
            w == windings@,
            c == contains@,
            host@.len() == n,
            forall|t: int| 0 <= t < n ==> #[trigger] host@[t] == first_host(w, c, t, 0),
            res@.len() == picked(e as int, is_exterior(w)).len(),
            forall|k: int|
                0 <= k < res@.len() ==> (#[trigger] res@[k]).0 == picked(e as int, is_exterior(w))[k]
                    && res@[k].1@ == picked(n as int, is_hole_of(w, c, res@[k].0 as int)),
        decreases n - e,
    {
        let exterior = match windings[e] {
            Some(Winding::CounterClockwise) => true,
            _ => false,
        };
        if exterior {
            let mut holes: Vec<usize> = Vec::new();
            let mut j: usize = 0;
            while j < n
                invariant
                    j <= n,
                    e < n,
                    n == w.len(),
                    w == windings@,
                    host@.len() == n,
                    forall|t: int| 0 <= t < n ==> #[trigger] host@[t] == first_host(w, c, t, 0),
                    holes@ == picked(j as int, is_hole_of(w, c, e as int)),
                decreases n - j,
            {
                let clockwise = match windings[j] {
                    Some(Winding::Clockwise) => true,
                    _ => false,
                };
                if clockwise && host[j] == e {
                    holes.push(j);
                }
                j += 1;
            }
            let ghost before = res@;
            res.push((e, holes));
            proof {
                assert forall|k: int| 0 <= k < res@.len() implies (#[trigger] res@[k]).0 == picked(
                    e + 1,
                    is_exterior(w),
                )[k] && res@[k].1@ == picked(n as int, is_hole_of(w, c, res@[k].0 as int)) by {
                    if k < before.len() {
                        assert(res@[k] == before[k]);
                    }
                }
            }
        }
        e += 1;
    }
    res
}

} // verus!
