//! The wavefront at rest: before the first event the rings of the wavefront
//! are the boundary loops that it was made of.
use crate::reconstruction::{outline, rings_of};
use crate::skeleton::{lemma_nothing_due, Skeleton};
use crate::vertex_queue::{
    first_fresh, initial, is_walk, lemma_first_fresh_is, lemma_first_fresh_none, lemma_walk_unique,
    next_visit, ring, visited_in, walk_of, IndexType, Node, Visit,
};
use crate::wavefront::{consecutive, lemma_consecutive, total};
use vstd::prelude::*;

verus! {

/// The head of the loop of slot `i` in a queue whose loops are laid out one
/// after the other: a loop begins where the loop before it closes.
pub open spec fn head_of(q: Seq<Node>, i: int) -> int
    decreases i,
{
    if i <= 0 {
        0
    } else if q[i - 1].right == head_of(q, i - 1) {
        i
    } else {
        head_of(q, i - 1)
    }
}

/// The loops of the queue are laid out one after the other: every slot is
/// active, and its right neighbour is the slot after it or the head of its
/// loop.
pub open spec fn in_order(q: Seq<Node>) -> bool {
    &&& q.len() <= usize::MAX
    &&& forall|i: int| 0 <= i < q.len() ==> !(#[trigger] q[i]).done
    &&& forall|i: int|
        0 <= i < q.len() ==> (#[trigger] q[i]).right == head_of(q, i) || (q[i].right == i + 1 && i
            + 1 < q.len())
}

/// The walk over a queue whose loops are laid out one after the other: slot
/// after slot.
pub open spec fn walk_in_order(q: Seq<Node>) -> Seq<Visit> {
    Seq::new(
        q.len(),
        |i: int| (head_of(q, i) as usize, IndexType::PointerIndex(i as usize), q[i].index),
    )
}

/// The head of a loop does not come after the slots of the loop.
proof fn lemma_head_bounds(q: Seq<Node>, i: int)
    requires
        0 <= i,
    ensures
        0 <= head_of(q, i) <= i,
    decreases i,
{
    if i > 0 {
        lemma_head_bounds(q, i - 1);
    }
}

/// The first `i` visits of the walk in order have visited the first `i`
/// slots and no other.
proof fn lemma_seen_in_order(q: Seq<Node>, i: int, p: int)
    requires
        q.len() <= usize::MAX,
        0 <= i <= q.len(),
    ensures
        visited_in(walk_in_order(q).take(i), p) <==> 0 <= p < i,
{
    let prefix = walk_in_order(q).take(i);
    if 0 <= p < i {
        assert(prefix[p].1.value() == p);
    }
    if visited_in(prefix, p) {
        let j = choose|j: int| 0 <= j < prefix.len() && (#[trigger] prefix[j]).1.value() == p;
        assert(prefix[j].1.value() == j);
    }
}

/// The walk in order is the walk over a queue whose loops are laid out one
/// after the other.
pub proof fn lemma_walk_in_order(q: Seq<Node>)
    requires
        in_order(q),
    ensures
        is_walk(q, walk_in_order(q)),
        walk_of(q) == walk_in_order(q),
{
    reveal(is_walk);
    let walk = walk_in_order(q);
    assert forall|i: int| 0 <= i < walk.len() implies next_visit(q, #[trigger] walk.take(i)) == Some(
        walk[i],
    ) by {
        let prefix = walk.take(i);
        lemma_head_bounds(q, i);
        if i > 0 {
            lemma_head_bounds(q, i - 1);
            assert(prefix.last() == walk[i - 1]);
            assert(!q[i - 1].done);
        }
        assert(!q[i].done);
        if i > 0 && q[i - 1].right != head_of(q, i - 1) {
            assert(q[i - 1].right == i);
        } else {
            assert forall|s: int| 0 <= s < i && !q[s].done implies visited_in(prefix, s) by {
                lemma_seen_in_order(q, i, s);
            }
            lemma_seen_in_order(q, i, i);
            lemma_first_fresh_is(q, prefix, 0, i);
        }
    }
    assert(next_visit(q, walk) is None) by {
        assert(walk.take(walk.len() as int) =~= walk);
        if q.len() > 0 {
            let last = q.len() - 1;
            lemma_head_bounds(q, last);
            assert(!q[last].done);
            assert(walk.last() == walk[last]);
            assert(q[last].right == head_of(q, last));
        }
        assert forall|s: int| 0 <= s < q.len() && !q[s].done implies visited_in(walk, s) by {
            lemma_seen_in_order(q, q.len() as int, s);
        }
        lemma_first_fresh_none(q, walk, 0);
    }
    assert(is_walk(q, walk));
    assert(is_walk(q, walk_of(q)));
    lemma_walk_unique(q, walk, walk_of(q));
}

/// The queue for boundary loops that are not empty has its loops laid out
/// one after the other, and the head of each slot of the last loop is the
/// first slot of that loop.
proof fn lemma_initial_in_order(loops: Seq<Seq<usize>>)
    requires
        initial(loops).len() <= usize::MAX,
        forall|k: int| 0 <= k < loops.len() ==> (#[trigger] loops[k]).len() > 0,
    ensures
        in_order(initial(loops)),
        loops.len() > 0 ==> forall|i: int|
            initial(loops.drop_last()).len() <= i < initial(loops).len() ==> #[trigger] head_of(
                initial(loops),
                i,
            ) == initial(loops.drop_last()).len(),
    decreases loops.len(),
{
    if loops.len() > 0 {
        let rest = loops.drop_last();
        assert forall|k: int| 0 <= k < rest.len() implies (#[trigger] rest[k]).len() > 0 by {
            assert(rest[k] == loops[k]);
        }
        lemma_initial_in_order(rest);
        let before = initial(rest);
        let base = before.len() as int;
        let last = ring(base, loops.last());
        let q = initial(loops);
        let n = loops.last().len() as int;
        assert(q.len() == base + n);
        assert forall|i: int| 0 <= i < base implies q[i] == before[i] by {}
        assert forall|j: int| 0 <= j < n implies q[base + j] == last[j] by {}
        if base > 0 {
            lemma_same_head(before, q, base - 1);
            assert(q[base - 1] == before[base - 1]);
            assert(before[base - 1].right == head_of(before, base - 1));
        }
        assert(head_of(q, base) == base);
        assert forall|i: int| base <= i < base + n - 1 implies (#[trigger] q[i]).right == i + 1 by {
            assert(q[i] == last[i - base]);
        }
        lemma_head_in_ring(q, base, n);
        assert forall|i: int| 0 <= i < q.len() implies (#[trigger] q[i]).right == head_of(q, i) || (
        q[i].right == i + 1 && i + 1 < q.len()) by {
            if i < base {
                lemma_same_head(before, q, i);
                assert(q[i] == before[i]);
            } else {
                assert(q[i] == last[i - base]);
                assert(head_of(q, i) == base);
            }
        }
        assert forall|i: int| 0 <= i < q.len() implies !(#[trigger] q[i]).done by {
            if i < base {
                assert(q[i] == before[i]);
            } else {
                assert(q[i] == last[i - base]);
            }
        }
    }
}

/// In a loop that begins at slot `base` and runs on to the next slot until
/// it closes, every slot has `base` for its head.
proof fn lemma_head_in_ring(q: Seq<Node>, base: int, n: int)
    requires
        0 <= base,
        0 <= n,
        base + n <= q.len(),
        head_of(q, base) == base,
        forall|i: int| base <= i < base + n - 1 ==> (#[trigger] q[i]).right == i + 1,
    ensures
        forall|i: int| base <= i < base + n ==> #[trigger] head_of(q, i) == base,
    decreases n,
{
    if n > 1 {
        lemma_head_in_ring(q, base, n - 1);
        let i = base + n - 2;
        assert(q[i].right == i + 1);
        assert(head_of(q, i) == base);
        assert(head_of(q, i + 1) == base);
    }
}

/// The rings of the first slots of a queue in order, up to a slot of the
/// last loop.
proof fn lemma_rings_in_order(loops: Seq<Seq<usize>>, j: int)
    requires
        initial(loops).len() <= usize::MAX,
        forall|k: int| 0 <= k < loops.len() ==> (#[trigger] loops[k]).len() > 0,
        loops.len() > 0,
        1 <= j <= loops.last().len(),
    ensures
        rings_of(walk_in_order(initial(loops)).take(initial(loops.drop_last()).len() + j))
            == loops.drop_last().push(loops.last().take(j)),
    decreases loops.len(), j,
{
    let rest = loops.drop_last();
    let before = initial(rest);
    let base = before.len() as int;
    let q = initial(loops);
    let walk = walk_in_order(q);
    let grown = walk.take(base + j);
    assert forall|k: int| 0 <= k < rest.len() implies (#[trigger] rest[k]).len() > 0 by {
        assert(rest[k] == loops[k]);
    }
    lemma_initial_in_order(loops);
    assert(grown.drop_last() =~= walk.take(base + j - 1));
    assert(grown.last() == walk[base + j - 1]);
    assert(q[base + (j - 1)] == ring(base, loops.last())[j - 1]);
    assert(head_of(q, base + j - 1) == base);
    if j == 1 {
        lemma_rings_up_to(loops);
        if base > 0 {
            assert(grown[grown.len() - 2] == walk[base - 1]);
            lemma_head_bounds(q, base - 1);
        }
        assert(loops.last().take(1) =~= seq![loops.last()[0]]);
    } else {
        lemma_rings_in_order(loops, j - 1);
        assert(grown[grown.len() - 2] == walk[base + j - 2]);
        assert(head_of(q, base + j - 2) == base);
        let so_far = rest.push(loops.last().take(j - 1));
        assert(so_far.update(so_far.len() - 1, so_far.last().push(loops.last()[j - 1])) =~= rest.push(
            loops.last().take(j),
        )) by {
            assert(loops.last().take(j - 1).push(loops.last()[j - 1]) =~= loops.last().take(j));
        }
    }
}

/// The rings of the slots before the last loop are the loops before the
/// last.
proof fn lemma_rings_up_to(loops: Seq<Seq<usize>>)
    requires
        initial(loops).len() <= usize::MAX,
        forall|k: int| 0 <= k < loops.len() ==> (#[trigger] loops[k]).len() > 0,
        loops.len() > 0,
    ensures
        rings_of(walk_in_order(initial(loops)).take(initial(loops.drop_last()).len() as int))
            == loops.drop_last(),
    decreases loops.len(), 0int,
{
    let rest = loops.drop_last();
    let before = initial(rest);
    let q = initial(loops);
    assert forall|k: int| 0 <= k < rest.len() implies (#[trigger] rest[k]).len() > 0 by {
        assert(rest[k] == loops[k]);
    }
    assert forall|i: int| 0 <= i < before.len() implies q[i] == before[i] by {}
    assert(walk_in_order(q).take(before.len() as int) =~= walk_in_order(before)) by {
        assert forall|i: int| 0 <= i < before.len() implies walk_in_order(q)[i] == walk_in_order(
            before,
        )[i] by {
            lemma_same_head(before, q, i);
        }
    }
    if rest.len() == 0 {
        assert(walk_in_order(before) =~= Seq::<Visit>::empty());
        assert(rest =~= Seq::<Seq<usize>>::empty());
    } else {
        lemma_rings_in_order(rest, rest.last().len() as int);
        assert(rest.last().take(rest.last().len() as int) =~= rest.last());
        assert(rest.drop_last().push(rest.last()) =~= rest);
        assert(walk_in_order(before).take(before.len() as int) =~= walk_in_order(before));
    }
}

/// Two queues that agree up to slot `i` give slot `i` one head.
proof fn lemma_same_head(a: Seq<Node>, b: Seq<Node>, i: int)
    requires
        0 <= i < a.len(),
        a.len() <= b.len(),
        forall|k: int| 0 <= k < a.len() ==> a[k] == b[k],
    ensures
        head_of(a, i) == head_of(b, i),
    decreases i,
{
    if i > 0 {
        lemma_same_head(a, b, i - 1);
    }
}

/// At rest the rings of the wavefront are the boundary loops: the walk over
/// the queue made for loops that are not empty visits the slots in order,
/// and its rings hold the vertex records of the loops, loop after loop.
pub proof fn lemma_rings_at_rest(loops: Seq<Seq<usize>>)
    requires
        initial(loops).len() <= usize::MAX,
        forall|k: int| 0 <= k < loops.len() ==> (#[trigger] loops[k]).len() > 0,
    ensures
        walk_of(initial(loops)) == walk_in_order(initial(loops)),
        rings_of(walk_of(initial(loops))) == loops,
{
    let q = initial(loops);
    lemma_initial_in_order(loops);
    lemma_walk_in_order(q);
    if loops.len() == 0 {
        assert(walk_in_order(q) =~= Seq::<Visit>::empty());
        assert(loops =~= Seq::<Seq<usize>>::empty());
    } else {
        lemma_rings_in_order(loops, loops.last().len() as int);
        assert(loops.last().take(loops.last().len() as int) =~= loops.last());
        assert(loops.drop_last().push(loops.last()) =~= loops);
        assert(walk_in_order(q).take(q.len() as int) =~= walk_in_order(q));
    }
}

/// There are as many consecutive loops as sizes.
proof fn lemma_consecutive_len(sizes: Seq<usize>)
    ensures
        consecutive(sizes).len() == sizes.len(),
    decreases sizes.len(),
{
    if sizes.len() > 0 {
        lemma_consecutive_len(sizes.drop_last());
    }
}

/// Consecutive loops are as long as their sizes say.
proof fn lemma_consecutive_sizes(sizes: Seq<usize>, k: int)
    requires
        0 <= k < sizes.len(),
    ensures
        consecutive(sizes).len() == sizes.len(),
        consecutive(sizes)[k].len() == sizes[k],
    decreases sizes.len(),
{
    lemma_consecutive_len(sizes);
    lemma_consecutive_len(sizes.drop_last());
    if k < sizes.len() - 1 {
        lemma_consecutive_sizes(sizes.drop_last(), k);
        assert(consecutive(sizes)[k] == consecutive(sizes.drop_last())[k]);
        assert(sizes.drop_last()[k] == sizes[k]);
    }
}

/// At a moment before the first event the outline of a skeleton is the
/// boundary that its wavefront was set upon: for boundary loops of the sizes
/// `sizes`, none of them empty, the rings are the vertices in order, loop
/// after loop.
pub proof fn lemma_outline_at_rest(skeleton: &Skeleton, sizes: Seq<usize>, d: i64)
    requires
        total(sizes) <= usize::MAX,
        forall|k: int| 0 <= k < sizes.len() ==> #[trigger] sizes[k] > 0,
        skeleton.initial_vertex_queue@ == initial(consecutive(sizes)),
        skeleton.event_queue@.len() == 0 || skeleton.event_queue@[0].time() > d,
    ensures
        outline(skeleton, d) == consecutive(sizes),
{
    let loops = consecutive(sizes);
    lemma_consecutive(sizes);
    assert forall|k: int| 0 <= k < loops.len() implies (#[trigger] loops[k]).len() > 0 by {
        lemma_consecutive_sizes(sizes, k);
        assert(sizes[k] > 0);
    }
    lemma_nothing_due(skeleton.initial_vertex_queue@, skeleton.event_queue@, d);
    lemma_rings_at_rest(loops);
}

} // verus!
