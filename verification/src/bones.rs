//! The skeleton as a drawing: one bone for each tree vertex that the initial
//! wavefront leads to.
use crate::skeleton::{forest, Skeleton, VertexType, NO_PARENT};
use crate::vertex_queue::{is_active, lemma_mark, unmarked, visit_ok, walk_of, Visit};
use vstd::prelude::*;

verus! {

/// A bone: a tree vertex and its parent, which is `NO_PARENT` for a vertex
/// that is still moving.
pub type Bone = (usize, usize);

/// Record `v` is one step up from record `u`: it is the parent of the tree
/// vertex `u`, or one of the two vertices that the split `u` made.
pub open spec fn leads(t: Seq<VertexType>, u: int, v: int) -> bool {
    0 <= u < t.len() && match t[u] {
        VertexType::Tree { parent } => parent != NO_PARENT && v == parent,
        VertexType::Split { split_left, split_right, .. } => v == split_left || v == split_right,
        VertexType::Root => false,
    }
}

/// The height of record `i`: a number that grows along every step up. A
/// tree vertex stands at twice its index and one; a split stands just below
/// the two vertices that it made.
pub open spec fn height(t: Seq<VertexType>, i: int) -> int {
    if 0 <= i < t.len() && t[i] is Split {
        2 * i - 4
    } else {
        2 * i + 1
    }
}

/// Every step up in a forest leads to a record that exists and stands
/// higher: no walk up ever comes back to a record that it has left.
pub proof fn lemma_steps_lead_up(t: Seq<VertexType>, u: int, v: int)
    requires
        forest(t),
        leads(t, u, v),
    ensures
        0 <= v < t.len(),
        height(t, u) < height(t, v),
{
    match t[u] {
        VertexType::Split { split_left, split_right, .. } => {
            assert(t[split_left as int] is Tree);
            assert(t[split_right as int] is Tree);
        },
        _ => {},
    }
}

/// Record `v` is `n` steps up from one of the records `starts`.
pub open spec fn reached_in(t: Seq<VertexType>, starts: Seq<usize>, v: int, n: nat) -> bool
    decreases n,
{
    if n == 0 {
        exists|i: int| 0 <= i < starts.len() && #[trigger] starts[i] == v
    } else {
        exists|u: int| #[trigger] leads(t, u, v) && reached_in(t, starts, u, (n - 1) as nat)
    }
}

/// Record `v` is reached from the records `starts`.
pub open spec fn reached(t: Seq<VertexType>, starts: Seq<usize>, v: int) -> bool {
    exists|n: nat| #[trigger] reached_in(t, starts, v, n)
}

/// The vertex record of a visit.
pub open spec fn occupant() -> spec_fn(Visit) -> usize {
    |v: Visit| v.2
}

/// Each bone is a tree vertex with its parent, no vertex has two bones, and
/// every bone stands at a marked record.
spec fn bones_ok(t: Seq<VertexType>, marks: Seq<bool>, bones: Seq<Bone>) -> bool {
    &&& forall|k: int|
        0 <= k < bones.len() ==> (#[trigger] bones[k]).0 < marks.len() && marks[bones[k].0 as int]
            && t[bones[k].0 as int] == (VertexType::Tree { parent: bones[k].1 })
    &&& forall|i: int|
        0 <= i < marks.len() && #[trigger] marks[i] && t[i] is Tree ==> exists|k: int|
            0 <= k < bones.len() && (#[trigger] bones[k]).0 == i
    &&& forall|a: int, b: int|
        0 <= a < b < bones.len() ==> (#[trigger] bones[a]).0 != (#[trigger] bones[b]).0
}

/// `bones` draws the skeleton `t` as seen from `starts`: one bone for each
/// tree vertex that is reached, and no other.
pub open spec fn draws(t: Seq<VertexType>, starts: Seq<usize>, bones: Seq<Bone>) -> bool {
    &&& forall|k: int|
        0 <= k < bones.len() ==> reached(t, starts, (#[trigger] bones[k]).0 as int) && t[bones[k].0 as int]
            == (VertexType::Tree { parent: bones[k].1 })
    &&& forall|v: int|
        0 <= v < t.len() && #[trigger] reached(t, starts, v) && t[v] is Tree ==> exists|k: int|
            0 <= k < bones.len() && (#[trigger] bones[k]).0 == v
    &&& forall|a: int, b: int|
        0 <= a < b < bones.len() ==> (#[trigger] bones[a]).0 != (#[trigger] bones[b]).0
}

/// The climb from record `cur`: the marks and the bones that it leaves. It
/// stops at a record that is marked. Else it marks the record and goes on:
/// from a tree vertex, of which it makes a bone, to the parent, if there is
/// one; from a split to the left and then to the right of the two vertices
/// that the split made. `fuel` bounds the number of steps in a row; the
/// number of records is always enough.
pub open spec fn climb(t: Seq<VertexType>, cur: int, marks: Seq<bool>, fuel: nat) -> (
    Seq<bool>,
    Seq<Bone>,
)
    decreases fuel,
{
    if fuel == 0 || !(0 <= cur < marks.len()) || marks[cur] {
        (marks, Seq::empty())
    } else {
        let marked = marks.update(cur, true);
        match t[cur] {
            VertexType::Root => (marked, Seq::empty()),
            VertexType::Tree { parent } => {
                let up = if parent == NO_PARENT {
                    (marked, Seq::empty())
                } else {
                    climb(t, parent as int, marked, (fuel - 1) as nat)
                };
                (up.0, seq![(cur as usize, parent)] + up.1)
            },
            VertexType::Split { split_left, split_right, .. } => {
                let left = climb(t, split_left as int, marked, (fuel - 1) as nat);
                let right = climb(t, split_right as int, left.0, (fuel - 1) as nat);
                (right.0, left.1 + right.1)
            },
        }
    }
}

/// The marks and the bones left by the climbs from the first `n` of the
/// records `starts`, one climb after the other.
pub open spec fn sweep(t: Seq<VertexType>, starts: Seq<usize>, n: int) -> (Seq<bool>, Seq<Bone>)
    decreases n,
{
    if n <= 0 {
        (Seq::new(t.len(), |i: int| false), Seq::empty())
    } else {
        let before = sweep(t, starts, n - 1);
        let last = climb(t, starts[n - 1] as int, before.0, t.len());
        (last.0, before.1 + last.1)
    }
}

/// There are no more unmarked records than records, and at least one where
/// a record is unmarked.
proof fn lemma_unmarked(marks: Seq<bool>, i: int)
    ensures
        unmarked(marks) <= marks.len(),
        0 <= i < marks.len() && !marks[i] ==> unmarked(marks) >= 1,
    decreases marks.len(),
{
    if marks.len() > 0 {
        lemma_unmarked(marks.drop_last(), i);
    }
}

/// What leads on from a marked record is marked too.
spec fn closed(t: Seq<VertexType>, marks: Seq<bool>) -> bool {
    forall|u: int, v: int|
        0 <= u < marks.len() && marks[u] && #[trigger] leads(t, u, v) ==> 0 <= v < marks.len()
            && marks[v]
}

/// One step on from a record that is reached leads to a record that is
/// reached.
proof fn lemma_step(t: Seq<VertexType>, starts: Seq<usize>, u: int, v: int)
    requires
        reached(t, starts, u),
        leads(t, u, v),
    ensures
        reached(t, starts, v),
{
    let n = choose|n: nat| #[trigger] reached_in(t, starts, u, n);
    assert(reached_in(t, starts, v, n + 1));
}

/// Marks that hold the starts and are closed hold all that is reached.
proof fn lemma_closed_covers(t: Seq<VertexType>, starts: Seq<usize>, marks: Seq<bool>, v: int, n: nat)
    requires
        closed(t, marks),
        forall|i: int| 0 <= i < starts.len() ==> (#[trigger] starts[i]) < marks.len() && marks[starts[i] as int],
        reached_in(t, starts, v, n),
    ensures
        0 <= v < marks.len() && marks[v],
    decreases n,
{
    if n == 0 {
        let i = choose|i: int| 0 <= i < starts.len() && #[trigger] starts[i] == v;
        assert(marks[starts[i] as int]);
    } else {
        let u = choose|u: int| #[trigger] leads(t, u, v) && reached_in(t, starts, u, (n - 1) as nat);
        lemma_closed_covers(t, starts, marks, u, (n - 1) as nat);
    }
}

/// Walks up from record `cur`, marks what it passes and adds a bone for each
/// tree vertex that it marks.
#[verifier::rlimit(50)]
fn dfs_helper(
    cur: usize,
    visit: &mut Vec<bool>,
    ret: &mut Vec<Bone>,
    ray_vector: &Vec<VertexType>,
    Ghost(starts): Ghost<Seq<usize>>,
    Ghost(fuel): Ghost<nat>,
)
    requires
        fuel >= unmarked(old(visit)@),
        forest(ray_vector@),
        cur < ray_vector@.len(),
        old(visit)@.len() == ray_vector@.len(),
        bones_ok(ray_vector@, old(visit)@, old(ret)@),
        reached(ray_vector@, starts, cur as int),
        forall|u: int| 0 <= u < old(visit)@.len() && old(visit)@[u] ==> reached(ray_vector@, starts, u),
    ensures
        final(visit)@.len() == ray_vector@.len(),
        final(visit)@[cur as int],
        forall|u: int| 0 <= u < old(visit)@.len() && old(visit)@[u] ==> final(visit)@[u],
        forall|u: int, v: int|
            0 <= u < final(visit)@.len() && final(visit)@[u] && !old(visit)@[u] && #[trigger] leads(
                ray_vector@,
                u,
                v,
            ) ==> 0 <= v < final(visit)@.len() && final(visit)@[v],
        forall|u: int|
            0 <= u < final(visit)@.len() && final(visit)@[u] ==> reached(ray_vector@, starts, u),
        bones_ok(ray_vector@, final(visit)@, final(ret)@),
        unmarked(final(visit)@) <= unmarked(old(visit)@),
        final(visit)@ == climb(ray_vector@, cur as int, old(visit)@, fuel).0,
        final(ret)@ == old(ret)@ + climb(ray_vector@, cur as int, old(visit)@, fuel).1,
    decreases unmarked(old(visit)@),
{
    if visit[cur] {
        proof {
            assert(ret@ =~= ret@ + Seq::<Bone>::empty());
        }
        return ;
    }
    proof {
        lemma_unmarked(visit@, cur as int);
    }
    let ghost t = ray_vector@;
    let ghost marks0 = visit@;
    let ghost bones0 = ret@;
    proof {
        lemma_mark(visit@, cur as int);
    }
    visit.set(cur, true);
    let ghost marks1 = visit@;
    match ray_vector[cur] {
        VertexType::Root => {
            proof {
                assert forall|i: int|
                    0 <= i < marks1.len() && #[trigger] marks1[i] && t[i] is Tree implies exists|
                    k: int,
                | 0 <= k < bones0.len() && (#[trigger] bones0[k]).0 == i by {
                    assert(marks0[i]);
                }
                assert(ret@ =~= bones0 + Seq::<Bone>::empty());
            }
        },
        VertexType::Tree { parent } => {
            ret.push((cur, parent));
            let ghost bones1 = ret@;
            proof {
                assert forall|i: int|
                    0 <= i < marks1.len() && #[trigger] marks1[i] && t[i] is Tree implies exists|
                    k: int,
                | 0 <= k < bones1.len() && (#[trigger] bones1[k]).0 == i by {
                    if i == cur {
                        assert(bones1[bones0.len() as int].0 == cur);
                    } else {
                        assert(marks0[i]);
                        let k = choose|k: int| 0 <= k < bones0.len() && (#[trigger] bones0[k]).0 == i;
                        assert(bones1[k] == bones0[k]);
                    }
                }
                assert forall|a: int, b: int| 0 <= a < b < bones1.len() implies (
                #[trigger] bones1[a]).0 != (#[trigger] bones1[b]).0 by {
                    assert(bones1[a] == bones0[a]);
                    if b < bones0.len() {
                        assert(bones1[b] == bones0[b]);
                    } else {
                        assert(marks0[bones0[a].0 as int]);
                    }
                }
                assert forall|k: int| 0 <= k < bones1.len() implies (#[trigger] bones1[k]).0
                    < marks1.len() && marks1[bones1[k].0 as int] && t[bones1[k].0 as int] == (
                VertexType::Tree { parent: bones1[k].1 }) by {
                    if k < bones0.len() {
                        assert(bones1[k] == bones0[k]);
                    }
                }
            }
            if parent != NO_PARENT {
                proof {
                    assert(leads(t, cur as int, parent as int));
                    lemma_step(t, starts, cur as int, parent as int);
                }
                dfs_helper(parent, visit, ret, ray_vector, Ghost(starts), Ghost((fuel - 1) as nat));
                proof {
                    let up = climb(t, parent as int, marks1, (fuel - 1) as nat);
                    assert(ret@ =~= bones0 + (seq![(cur, parent)] + up.1));
                }
            } else {
                proof {
                    assert(ret@ =~= bones0 + (seq![(cur, parent)] + Seq::<Bone>::empty()));
                }
            }
        },
        VertexType::Split { split_left, split_right, .. } => {
            proof {
                assert forall|i: int|
                    0 <= i < marks1.len() && #[trigger] marks1[i] && t[i] is Tree implies exists|
                    k: int,
                | 0 <= k < bones0.len() && (#[trigger] bones0[k]).0 == i by {
                    assert(marks0[i]);
                }
                assert(leads(t, cur as int, split_left as int));
                assert(leads(t, cur as int, split_right as int));
                lemma_step(t, starts, cur as int, split_left as int);
                lemma_step(t, starts, cur as int, split_right as int);
            }
            dfs_helper(split_left, visit, ret, ray_vector, Ghost(starts), Ghost((fuel - 1) as nat));
            dfs_helper(split_right, visit, ret, ray_vector, Ghost(starts), Ghost((fuel - 1) as nat));
            proof {
                let left = climb(t, split_left as int, marks1, (fuel - 1) as nat);
                let right = climb(t, split_right as int, left.0, (fuel - 1) as nat);
                assert(ret@ =~= bones0 + (left.1 + right.1));
            }
        },
    }
}

impl Skeleton {
    /// Returns the bones of the skeleton: one for each tree vertex that is
    /// reached from a vertex of the initial wavefront, by going from a
    /// vertex to its parent and from a split to the two vertices that it
    /// made.
    #[verifier::rlimit(50)]
    pub fn to_linestring(&self) -> (r: Vec<Bone>)
        requires
            self.wf(),
        ensures
            r@ == sweep(
                self.ray_vector@,
                walk_of(self.initial_vertex_queue@).map_values(occupant()),
                walk_of(self.initial_vertex_queue@).len() as int,
            ).1,
            draws(
                self.ray_vector@,
                walk_of(self.initial_vertex_queue@).map_values(occupant()),
                r@,
            ),
    {
        let n = self.ray_vector.len();
        let ghost t = self.ray_vector@;
        let mut visit: Vec<bool> = Vec::new();
        let mut c: usize = 0;
        while c < n
            invariant
                c <= n,
                visit@.len() == c,
                forall|s: int| 0 <= s < c ==> !visit@[s],
            decreases n - c,
        {
            visit.push(false);
            c += 1;
        }
        let mut ret: Vec<Bone> = Vec::new();
        let walk = self.initial_vertex_queue.iter();
        let ghost starts = walk@.map_values(occupant());
        let mut i: usize = 0;
        proof {
            assert(visit@ =~= Seq::new(t.len(), |i: int| false));
        }
        while i < walk.len()
            invariant
                i <= walk@.len(),
                self.wf(),
                t == self.ray_vector@,
                n == t.len(),
                visit@.len() == n,
                starts == walk@.map_values(occupant()),
                forall|k: int|
                    0 <= k < walk@.len() ==> visit_ok(self.initial_vertex_queue@, #[trigger] walk@[k]),
                bones_ok(t, visit@, ret@),
                closed(t, visit@),
                forall|u: int| 0 <= u < n && visit@[u] ==> reached(t, starts, u),
                forall|k: int| 0 <= k < i ==> (#[trigger] starts[k]) < n && visit@[starts[k] as int],
                (visit@, ret@) == sweep(t, starts, i as int),
            decreases walk@.len() - i,
        {
            let e = walk[i].2;
            let ghost marks0 = visit@;
            proof {
                assert(visit_ok(self.initial_vertex_queue@, walk@[i as int]));
                assert(is_active(self.initial_vertex_queue@, walk@[i as int].1.value() as int));
                assert(starts[i as int] == e);
                assert(reached_in(t, starts, e as int, 0));
                lemma_unmarked(visit@, 0);
            }
            dfs_helper(e, &mut visit, &mut ret, &self.ray_vector, Ghost(starts), Ghost(t.len()));
            proof {
                assert forall|u: int, v: int|
                    0 <= u < visit@.len() && visit@[u] && #[trigger] leads(t, u, v) implies 0 <= v
                    < visit@.len() && visit@[v] by {
                    if marks0[u] {
                        assert(marks0[v]);
                    }
                }
            }
            i += 1;
        }
        proof {
            assert forall|v: int|
                0 <= v < t.len() && #[trigger] reached(t, starts, v) && t[v] is Tree implies exists|
                k: int,
            | 0 <= k < ret@.len() && (#[trigger] ret@[k]).0 == v by {
                let m = choose|m: nat| #[trigger] reached_in(t, starts, v, m);
                lemma_closed_covers(t, starts, visit@, v, m);
                assert(visit@[v]);
            }
        }
        ret
    }
}

} // verus!
