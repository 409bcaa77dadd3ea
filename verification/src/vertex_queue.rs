//! The active vertex queue: the loops of the wavefront as circular, doubly
//! linked lists laid out in one table of slots.
use vstd::prelude::*;

verus! {

/// Which of the two addressing modes of the queue an index uses.
#[derive(Clone, Copy, Debug, PartialEq, Eq, Hash, Structural)]
pub enum IndexType {
    /// An index into the table of vertex records.
    RealIndex(usize),
    /// A slot of the queue. It stays valid however the queue changes.
    PointerIndex(usize),
}

impl IndexType {
    /// The number carried by the index, whichever mode it is in.
    pub open spec fn value(self) -> usize {
        match self {
            IndexType::RealIndex(i) => i,
            IndexType::PointerIndex(i) => i,
        }
    }

    /// Returns the number carried by the index.
    pub fn get_index(&self) -> (r: usize)
        ensures
            r == self.value(),
    {
        match self {
            IndexType::RealIndex(i) => *i,
            IndexType::PointerIndex(i) => *i,
        }
    }
}

/// One slot of the queue.
#[derive(Clone, Copy, Debug, PartialEq, Eq, Structural)]
pub struct Node {
    /// The vertex record that occupies the slot at present.
    pub index: usize,
    /// The slot of the left neighbour.
    pub left: usize,
    /// The slot of the right neighbour.
    pub right: usize,
    /// Set once the slot has left the wavefront.
    pub done: bool,
}

/// One step of a walk over the queue: the head slot of the loop, the slot
/// visited, and the vertex record found in it.
pub type Visit = (usize, IndexType, usize);

/// Slot `p` exists in `q` and has not left the wavefront.
pub open spec fn is_active(q: Seq<Node>, p: int) -> bool {
    0 <= p < q.len() && !q[p].done
}

/// Left and right links of the active slots are inverse to each other and
/// never lead to a slot that is done. The active slots therefore fall into
/// disjoint circular loops.
pub open spec fn links_wf(q: Seq<Node>) -> bool {
    forall|p: int| #[trigger]
        is_active(q, p) ==> {
            &&& 0 <= q[p].left < q.len()
            &&& 0 <= q[p].right < q.len()
            &&& !q[q[p].left as int].done
            &&& !q[q[p].right as int].done
            &&& q[q[p].left as int].right == p
            &&& q[q[p].right as int].left == p
        }
}

/// The number of active slots among the first `n`.
pub open spec fn active_below(q: Seq<Node>, n: int) -> nat
    decreases n,
{
    if n <= 0 {
        0
    } else {
        active_below(q, n - 1) + if n <= q.len() && !q[n - 1].done {
            1nat
        } else {
            0nat
        }
    }
}

/// The number of active slots.
pub open spec fn active_count(q: Seq<Node>) -> nat {
    active_below(q, q.len() as int)
}

/// The table after slot `from` was unlinked from its loop and the slot to its
/// right was given the vertex record `new_real`.
pub open spec fn removed(q: Seq<Node>, from: int, new_real: usize) -> Seq<Node> {
    let l = q[from].left;
    let r = q[from].right;
    let q1 = q.update(l as int, Node { right: r, ..q[l as int] });
    let q2 = q1.update(r as int, Node { left: l, index: new_real, ..q1[r as int] });
    q2.update(from, Node { done: true, ..q2[from] })
}

/// The table after the edge to the right of slot `struck` was cut by the
/// vertex in slot `anchor`. A new slot, the last of the table, stands to the
/// right of `struck` and holds `right_real`; it is followed by what used to
/// follow `anchor`. The slot `anchor` holds `left_real` and is followed by
/// what used to follow `struck`.
pub open spec fn split(
    q: Seq<Node>,
    anchor: int,
    struck: int,
    left_real: usize,
    right_real: usize,
) -> Seq<Node> {
    let n = q.len() as usize;
    let ar = q[anchor].right;
    let sr = q[struck].right;
    let q1 = q.update(anchor, Node { index: left_real, right: sr, ..q[anchor] });
    let q2 = q1.update(sr as int, Node { left: anchor as usize, ..q1[sr as int] });
    let q3 = q2.update(struck, Node { right: n, ..q2[struck] });
    let q4 = q3.update(ar as int, Node { left: n, ..q3[ar as int] });
    q4.push(Node { index: right_real, left: struck as usize, right: ar, done: false })
}

/// Changing one slot changes the count of active slots by what that slot
/// contributes.
pub proof fn lemma_active_below_update(q: Seq<Node>, i: int, node: Node, n: int)
    requires
        0 <= i < q.len(),
        0 <= n <= q.len(),
    ensures
        active_below(q.update(i, node), n) + (if i < n && !q[i].done {
            1int
        } else {
            0int
        }) == active_below(q, n) + (if i < n && !node.done {
            1int
        } else {
            0int
        }),
    decreases n,
{
    if n > 0 {
        lemma_active_below_update(q, i, node, n - 1);
    }
}

/// A slot added at the end does not change the count below it.
pub proof fn lemma_active_below_push(q: Seq<Node>, node: Node, n: int)
    requires
        0 <= n <= q.len(),
    ensures
        active_below(q.push(node), n) == active_below(q, n),
    decreases n,
{
    if n > 0 {
        lemma_active_below_push(q, node, n - 1);
    }
}

/// Unlinking an active slot keeps the loops intact and leaves one active slot
/// fewer.
pub proof fn lemma_removed(q: Seq<Node>, from: int, new_real: usize)
    requires
        links_wf(q),
        is_active(q, from),
    ensures
        links_wf(removed(q, from, new_real)),
        removed(q, from, new_real).len() == q.len(),
        active_count(removed(q, from, new_real)) + 1 == active_count(q),
        forall|p: int|
            is_active(removed(q, from, new_real), p) <==> is_active(q, p) && p != from,
{
    let l = q[from].left;
    let r = q[from].right;
    let q1 = q.update(l as int, Node { right: r, ..q[l as int] });
    let q2 = q1.update(r as int, Node { left: l, index: new_real, ..q1[r as int] });
    let q3 = q2.update(from, Node { done: true, ..q2[from] });
    assert(is_active(q, l as int));
    assert(is_active(q, r as int));
    let n = q.len() as int;
    lemma_active_below_update(q, l as int, Node { right: r, ..q[l as int] }, n);
    lemma_active_below_update(q1, r as int, Node { left: l, index: new_real, ..q1[r as int] }, n);
    lemma_active_below_update(q2, from, Node { done: true, ..q2[from] }, n);
    assert forall|p: int| #[trigger] is_active(q3, p) implies {
        &&& 0 <= q3[p].left < q3.len()
        &&& 0 <= q3[p].right < q3.len()
        &&& !q3[q3[p].left as int].done
        &&& !q3[q3[p].right as int].done
        &&& q3[q3[p].left as int].right == p
        &&& q3[q3[p].right as int].left == p
    } by {
        assert(is_active(q, p));
        assert(is_active(q, q[p].left as int));
        assert(is_active(q, q[p].right as int));
    }
}

/// Cutting an edge keeps the loops intact and adds one active slot.
pub proof fn lemma_split(q: Seq<Node>, anchor: int, struck: int, left_real: usize, right_real: usize)
    requires
        links_wf(q),
        is_active(q, anchor),
        is_active(q, struck),
        anchor != struck,
        q.len() < usize::MAX,
    ensures
        links_wf(split(q, anchor, struck, left_real, right_real)),
        split(q, anchor, struck, left_real, right_real).len() == q.len() + 1,
        active_count(split(q, anchor, struck, left_real, right_real)) == active_count(q) + 1,
        forall|p: int|
            is_active(split(q, anchor, struck, left_real, right_real), p) <==> is_active(q, p) || p
                == q.len(),
{
    let n = q.len() as usize;
    let ar = q[anchor].right;
    let sr = q[struck].right;
    let q1 = q.update(anchor, Node { index: left_real, right: sr, ..q[anchor] });
    let q2 = q1.update(sr as int, Node { left: anchor as usize, ..q1[sr as int] });
    let q3 = q2.update(struck, Node { right: n, ..q2[struck] });
    let q4 = q3.update(ar as int, Node { left: n, ..q3[ar as int] });
    let last = Node { index: right_real, left: struck as usize, right: ar, done: false };
    let q5 = q4.push(last);
    assert(is_active(q, ar as int));
    assert(is_active(q, sr as int));
    let m = q.len() as int;
    lemma_active_below_update(q, anchor, Node { index: left_real, right: sr, ..q[anchor] }, m);
    lemma_active_below_update(q1, sr as int, Node { left: anchor as usize, ..q1[sr as int] }, m);
    lemma_active_below_update(q2, struck, Node { right: n, ..q2[struck] }, m);
    lemma_active_below_update(q3, ar as int, Node { left: n, ..q3[ar as int] }, m);
    lemma_active_below_push(q4, last, m);
    assert(active_below(q5, m + 1) == active_below(q5, m) + 1);
    assert forall|p: int| #[trigger] is_active(q5, p) implies {
        &&& 0 <= q5[p].left < q5.len()
        &&& 0 <= q5[p].right < q5.len()
        &&& !q5[q5[p].left as int].done
        &&& !q5[q5[p].right as int].done
        &&& q5[q5[p].left as int].right == p
        &&& q5[q5[p].right as int].left == p
    } by {
        if p < m {
            assert(is_active(q, p));
            assert(is_active(q, q[p].left as int));
            assert(is_active(q, q[p].right as int));
        }
    }
}


/// The slot reached from slot `p` by `n` steps to the right.
pub open spec fn steps_right(q: Seq<Node>, p: int, n: nat) -> int
    decreases n,
{
    if n == 0 {
        p
    } else {
        q[steps_right(q, p, (n - 1) as nat)].right as int
    }
}

/// Steps to the right from an active slot stay on active slots.
pub proof fn lemma_steps_stay_active(q: Seq<Node>, p: int, n: nat)
    requires
        links_wf(q),
        is_active(q, p),
    ensures
        is_active(q, steps_right(q, p, n)),
    decreases n,
{
    if n > 0 {
        lemma_steps_stay_active(q, p, (n - 1) as nat);
        assert(is_active(q, steps_right(q, p, (n - 1) as nat)));
    }
}

/// Where `i` steps and `j` steps to the right end at one slot, the steps
/// between them lead from the first slot back to itself.
proof fn lemma_steps_back(q: Seq<Node>, p: int, i: nat, j: nat)
    requires
        links_wf(q),
        is_active(q, p),
        i <= j,
        steps_right(q, p, i) == steps_right(q, p, j),
    ensures
        steps_right(q, p, (j - i) as nat) == p,
    decreases i,
{
    if i > 0 {
        let a = steps_right(q, p, (i - 1) as nat);
        let b = steps_right(q, p, (j - 1) as nat);
        lemma_steps_stay_active(q, p, (i - 1) as nat);
        lemma_steps_stay_active(q, p, (j - 1) as nat);
        assert(is_active(q, a));
        assert(is_active(q, b));
        assert(q[q[a].right as int].left == a);
        assert(q[q[b].right as int].left == b);
        lemma_steps_back(q, p, (i - 1) as nat, (j - 1) as nat);
    }
}

/// Of `m + 1` numbers below `m` two are the same.
proof fn lemma_two_alike(f: Seq<int>, m: int)
    requires
        m >= 0,
        f.len() == m + 1,
        forall|i: int| 0 <= i < f.len() ==> 0 <= #[trigger] f[i] < m,
    ensures
        exists|i: int, j: int| 0 <= i < j < f.len() && #[trigger] f[i] == #[trigger] f[j],
    decreases m,
{
    if m == 0 {
        assert(0 <= f[0] < 0);
    } else if exists|i: int| 0 <= i < m && #[trigger] f[i] == f[m] {
        let i = choose|i: int| 0 <= i < m && #[trigger] f[i] == f[m];
        assert(f[i] == f[m]);
    } else {
        let g = Seq::new(
            m as nat,
            |i: int|
                if f[i] == m - 1 {
                    f[m]
                } else {
                    f[i]
                },
        );
        assert forall|i: int| 0 <= i < g.len() implies 0 <= #[trigger] g[i] < m - 1 by {
            assert(0 <= f[i] < m);
            assert(0 <= f[m] < m);
        }
        lemma_two_alike(g, m - 1);
        let (i, j) = choose|i: int, j: int| 0 <= i < j < g.len() && #[trigger] g[i] == #[trigger] g[j];
        assert(f[i] == f[j]);
    }
}

/// The loops are circular: from every active slot some number of steps to
/// the right, no more than there are slots, leads back to it.
pub proof fn lemma_loops_are_circular(q: Seq<Node>, p: int)
    requires
        links_wf(q),
        is_active(q, p),
    ensures
        exists|n: nat| 1 <= n <= q.len() && #[trigger] steps_right(q, p, n) == p,
{
    let m = q.len() as int;
    let f = Seq::new((m + 1) as nat, |i: int| steps_right(q, p, i as nat));
    assert forall|i: int| 0 <= i < f.len() implies 0 <= #[trigger] f[i] < m by {
        lemma_steps_stay_active(q, p, i as nat);
    }
    lemma_two_alike(f, m);
    let (i, j) = choose|i: int, j: int| 0 <= i < j < f.len() && #[trigger] f[i] == #[trigger] f[j];
    lemma_steps_back(q, p, i as nat, j as nat);
    assert(steps_right(q, p, (j - i) as nat) == p);
}

/// The active vertices of the wavefront.
///
/// `content` is the table of slots; a slot's position in it is its pointer
/// index and never changes. `live` lists, in increasing order, the slots that
/// a walk over the queue has to look at.
#[derive(Debug)]
pub struct VertexQueue {
    /// The table of slots.
    pub content: Vec<Node>,
    /// The slots to look at, in increasing order.
    pub live: Vec<usize>,
}

impl View for VertexQueue {
    type V = Seq<Node>;

    open spec fn view(&self) -> Seq<Node> {
        self.content@
    }
}

impl Clone for VertexQueue {
    fn clone(&self) -> (r: Self)
        ensures
            r.content@ == self.content@,
            r.live@ == self.live@,
    {
        let content = self.content.clone();
        let live = self.live.clone();
        assert(content@ =~= self.content@);
        assert(live@ =~= self.live@);
        VertexQueue { content, live }
    }
}

impl VertexQueue {
    /// `live` is strictly increasing, stays inside the table and misses no
    /// active slot.
    pub open spec fn live_wf(&self) -> bool {
        &&& forall|i: int| 0 <= i < self.live@.len() ==> #[trigger] self.live@[i] < self.content@.len()
        &&& forall|i: int, j: int|
            0 <= i < j < self.live@.len() ==> #[trigger] self.live@[i] < #[trigger] self.live@[j]
        &&& forall|p: int| #[trigger]
            is_active(self.content@, p) ==> exists|i: int|
                0 <= i < self.live@.len() && #[trigger] self.live@[i] == p
    }

    /// `live` holds no slot that is done: with `live_wf`, it is the list of
    /// the active slots in increasing order.
    pub open spec fn is_compact(&self) -> bool {
        forall|i: int| 0 <= i < self.live@.len() ==> !self.content@[#[trigger] self.live@[i] as int].done
    }

    /// The queue is well formed: its active slots form disjoint circular
    /// loops, and `live` covers them.
    pub open spec fn wf(&self) -> bool {
        links_wf(self@) && self.live_wf()
    }

    /// Returns the queue without any slot.
    pub fn new() -> (r: Self)
        ensures
            r@ == Seq::<Node>::empty(),
            r.live@ == Seq::<usize>::empty(),
            r.wf(),
    {
        VertexQueue { content: Vec::new(), live: Vec::new() }
    }

    /// Returns the vertex record that `index` stands for: the occupant of
    /// the slot for a pointer index, the index itself for a real index.
    pub fn get_real_index(&self, index: IndexType) -> (r: usize)
        requires
            index is PointerIndex ==> index.value() < self@.len(),
        ensures
            r == match index {
                IndexType::RealIndex(i) => i,
                IndexType::PointerIndex(p) => self@[p as int].index,
            },
    {
        match index {
            IndexType::RealIndex(i) => i,
            IndexType::PointerIndex(p) => self.content[p].index,
        }
    }

    /// Returns the slot to the left of slot `index`.
    pub fn lv(&self, index: IndexType) -> (r: IndexType)
        requires
            index.value() < self@.len(),
        ensures
            r == IndexType::PointerIndex(self@[index.value() as int].left),
    {
        IndexType::PointerIndex(self.content[index.get_index()].left)
    }

    /// Returns the slot to the right of slot `index`.
    pub fn rv(&self, index: IndexType) -> (r: IndexType)
        requires
            index.value() < self@.len(),
        ensures
            r == IndexType::PointerIndex(self@[index.value() as int].right),
    {
        IndexType::PointerIndex(self.content[index.get_index()].right)
    }

    /// Unlinks slot `from`, gives the vertex record `new_real` to the slot on
    /// its right, and returns that slot.
    pub fn remove_and_set(&mut self, from: IndexType, new_real: IndexType) -> (r: IndexType)
        requires
            old(self).wf(),
            is_active(old(self)@, from.value() as int),
        ensures
            final(self)@ == removed(old(self)@, from.value() as int, new_real.value()),
            r == IndexType::PointerIndex(old(self)@[from.value() as int].right),
            final(self).wf(),
            final(self).live@ == old(self).live@,
            active_count(final(self)@) + 1 == active_count(old(self)@),
    {
        let f = from.get_index();
        let l = self.content[f].left;
        let r = self.content[f].right;
        proof {
            lemma_removed(self@, f as int, new_real.value());
            assert(is_active(self@, l as int));
            assert(is_active(self@, r as int));
        }
        let mut nl = self.content[l];
        nl.right = r;
        self.content.set(l, nl);
        let mut nr = self.content[r];
        nr.left = l;
        nr.index = new_real.get_index();
        self.content.set(r, nr);
        let mut nf = self.content[f];
        nf.done = true;
        self.content.set(f, nf);
        proof {
            assert(self.content@ =~= removed(old(self)@, f as int, new_real.value()));
            assert forall|p: int| #[trigger] is_active(self.content@, p) implies exists|i: int|
                0 <= i < self.live@.len() && #[trigger] self.live@[i] == p by {
                assert(is_active(old(self).content@, p));
                let i = choose|i: int|
                    0 <= i < old(self).live@.len() && #[trigger] old(self).live@[i] == p;
                assert(self.live@[i] == p);
            }
        }
        IndexType::PointerIndex(r)
    }

    /// Cuts the edge to the right of slot `struck` with the vertex in slot
    /// `anchor`. The anchor's slot receives `left_real` and is linked to what
    /// followed `struck`; a new slot receives `right_real` and stands between
    /// `struck` and what followed the anchor. Returns both slots, the
    /// anchor's first.
    #[verifier::rlimit(50)]
    pub fn split_and_set(
        &mut self,
        anchor: IndexType,
        struck: IndexType,
        left_real: IndexType,
        right_real: IndexType,
    ) -> (r: (IndexType, IndexType))
        requires
            old(self).wf(),
            is_active(old(self)@, anchor.value() as int),
            is_active(old(self)@, struck.value() as int),
            anchor.value() != struck.value(),
        ensures
            final(self)@ == split(
                old(self)@,
                anchor.value() as int,
                struck.value() as int,
                left_real.value(),
                right_real.value(),
            ),
            old(self)@.len() < usize::MAX,
            r.0 == IndexType::PointerIndex(anchor.value()),
            r.1 == IndexType::PointerIndex(old(self)@.len() as usize),
            final(self).wf(),
            final(self).live@ == old(self).live@.push(old(self)@.len() as usize),
            active_count(final(self)@) == active_count(old(self)@) + 1,
    {
        let a = anchor.get_index();
        let s = struck.get_index();
        let n = self.content.len();
        let ar = self.content[a].right;
        let sr = self.content[s].right;
        let last = Node { index: right_real.get_index(), left: s, right: ar, done: false };
        self.content.push(last);
        self.live.push(n);
        let m = self.content.len();
        proof {
            lemma_split(old(self)@, a as int, s as int, left_real.value(), right_real.value());
            assert(is_active(old(self)@, ar as int));
            assert(is_active(old(self)@, sr as int));
        }
        let mut na = self.content[a];
        na.index = left_real.get_index();
        na.right = sr;
        self.content.set(a, na);
        let mut nsr = self.content[sr];
        nsr.left = a;
        self.content.set(sr, nsr);
        let mut ns = self.content[s];
        ns.right = n;
        self.content.set(s, ns);
        let mut nar = self.content[ar];
        nar.left = n;
        self.content.set(ar, nar);
        proof {
            assert(self@ =~= split(
                old(self)@,
                a as int,
                s as int,
                left_real.value(),
                right_real.value(),
            ));
            assert forall|p: int| #[trigger] is_active(self.content@, p) implies exists|i: int|
                0 <= i < self.live@.len() && #[trigger] self.live@[i] == p by {
                if p < n {
                    assert(is_active(old(self).content@, p));
                    let i = choose|i: int|
                        0 <= i < old(self).live@.len() && #[trigger] old(self).live@[i] == p;
                    assert(self.live@[i] == p);
                } else {
                    assert(self.live@[old(self).live@.len() as int] == p);
                }
            }
        }
        (IndexType::PointerIndex(a), IndexType::PointerIndex(n))
    }

    /// Drops from `live` the slots that are done. The table of slots, and
    /// with it every pointer index, stays as it is.
    #[verifier::rlimit(50)]
    pub fn cleanup(&mut self)
        requires
            old(self).wf(),
        ensures
            final(self)@ == old(self)@,
            final(self).wf(),
            final(self).live@ == old(self).live@.filter(still_active(old(self)@)),
            final(self).is_compact(),
    {
        let ghost keep = still_active(self@);
        let mut kept: Vec<usize> = Vec::new();
        let n = self.live.len();
        let mut i: usize = 0;
        while i < n
            invariant
                n == self.live@.len(),
                i <= n,
                *self == *old(self),
                self.wf(),
                keep == still_active(self@),
                kept@ == self.live@.take(i as int).filter(keep),
            decreases n - i,
        {
            let p = self.live[i];
            proof {
                assert(self.live@.take(i as int + 1) =~= self.live@.take(i as int).push(p));
                filter_push(self.live@.take(i as int), keep, p);
            }
            if !self.content[p].done {
                kept.push(p);
            }
            i += 1;
        }
        proof {
            assert(self.live@.take(n as int) =~= self.live@);
            lemma_filtered_live(self.content@, self.live@);
        }
        let ghost before = self.live@;
        self.live = kept;
        proof {
            assert forall|p: int| #[trigger] is_active(self.content@, p) implies exists|i: int|
                0 <= i < self.live@.len() && #[trigger] self.live@[i] == p by {
                let i = choose|i: int| 0 <= i < before.len() && #[trigger] before[i] == p;
                assert(self.live@.contains(before[i]));
                let k = choose|k: int| 0 <= k < self.live@.len() && self.live@[k] == before[i];
                assert(self.live@[k] == p);
            }
        }
    }
}

/// The test that `cleanup` applies to a slot: it has not left the wavefront.
pub open spec fn still_active(q: Seq<Node>) -> spec_fn(usize) -> bool {
    |p: usize| !q[p as int].done
}

/// Filtering a sequence that ends in `a` filters what goes before and then
/// decides on `a`.
pub proof fn filter_push<A>(s: Seq<A>, keep: spec_fn(A) -> bool, a: A)
    ensures
        s.push(a).filter(keep) == if keep(a) {
            s.filter(keep).push(a)
        } else {
            s.filter(keep)
        },
{
    reveal(Seq::filter);
    assert(s.push(a).drop_last() =~= s);
}

/// Dropping the slots that are done from a list that covers the active
/// slots in increasing order leaves such a list.
proof fn lemma_filtered_live(q: Seq<Node>, live: Seq<usize>)
    requires
        forall|i: int| 0 <= i < live.len() ==> #[trigger] live[i] < q.len(),
        forall|i: int, j: int| 0 <= i < j < live.len() ==> #[trigger] live[i] < #[trigger] live[j],
    ensures
        ({
            let f = live.filter(still_active(q));
            &&& forall|i: int| 0 <= i < f.len() ==> #[trigger] f[i] < q.len()
            &&& forall|i: int, j: int| 0 <= i < j < f.len() ==> #[trigger] f[i] < #[trigger] f[j]
            &&& forall|i: int| 0 <= i < f.len() ==> live.contains(#[trigger] f[i])
            &&& forall|i: int| 0 <= i < f.len() ==> !q[#[trigger] f[i] as int].done
            &&& forall|i: int|
                0 <= i < live.len() && !q[live[i] as int].done ==> f.contains(#[trigger] live[i])
            &&& f.len() > 0 ==> live.len() > 0 && f.last() <= live.last()
        }),
    decreases live.len(),
{
    let keep = still_active(q);
    let f = live.filter(keep);
    reveal(Seq::filter);
    if live.len() > 0 {
        let init = live.drop_last();
        let fi = init.filter(keep);
        lemma_filtered_live(q, init);
        if keep(live.last()) {
            assert(f == fi.push(live.last()));
            assert(f[f.len() - 1] == live[live.len() - 1]);
            assert forall|i: int| 0 <= i < f.len() implies live.contains(#[trigger] f[i]) by {
                if i < fi.len() {
                    assert(init.contains(fi[i]));
                    let k = choose|k: int| 0 <= k < init.len() && init[k] == fi[i];
                    assert(live[k] == fi[i]);
                }
            }
            assert forall|i: int, j: int| 0 <= i < j < f.len() implies #[trigger] f[i] < #[trigger] f[j] by {
                if j == f.len() - 1 {
                    assert(init.contains(fi[i]));
                    let k = choose|k: int| 0 <= k < init.len() && init[k] == fi[i];
                    assert(live[k] < live[live.len() - 1]);
                }
            }
        } else {
            assert(f == fi);
            assert forall|i: int| 0 <= i < f.len() implies live.contains(#[trigger] f[i]) by {
                assert(init.contains(fi[i]));
                let k = choose|k: int| 0 <= k < init.len() && init[k] == fi[i];
                assert(live[k] == fi[i]);
            }
            if f.len() > 0 {
                assert(init.len() > 0);
                assert(init.last() == live[live.len() - 2]);
            }
        }
        assert forall|i: int|
            0 <= i < live.len() && !q[live[i] as int].done implies f.contains(#[trigger] live[i]) by {
            if i < init.len() {
                assert(init[i] == live[i]);
                assert(fi.contains(init[i]));
                let k = choose|k: int| 0 <= k < fi.len() && fi[k] == init[i];
                assert(f[k] == live[i]);
            } else {
                assert(f[f.len() - 1] == live[i]);
            }
        }
    }
}


/// Slot `p` occurs in `walk`.
pub open spec fn visited_in(walk: Seq<Visit>, p: int) -> bool {
    exists|i: int| 0 <= i < walk.len() && (#[trigger] walk[i]).1.value() == p
}

/// The least active slot from `from` on that `walk` has not visited, or the
/// length of the table if there is none.
pub open spec fn first_fresh(q: Seq<Node>, walk: Seq<Visit>, from: int) -> int
    decreases q.len() - from,
{
    if from >= q.len() {
        q.len() as int
    } else if 0 <= from && !q[from].done && !visited_in(walk, from) {
        from
    } else {
        first_fresh(q, walk, from + 1)
    }
}

/// What a walk over the queue visits after `walk`: the right neighbour of
/// the last slot while the loop is not closed, else the least active slot
/// not visited yet, which heads a new loop; nothing when no such slot is left.
pub open spec fn next_visit(q: Seq<Node>, walk: Seq<Visit>) -> Option<Visit> {
    if walk.len() > 0 && q[walk.last().1.value() as int].right != walk.last().0 {
        let p = q[walk.last().1.value() as int].right;
        Some((walk.last().0, IndexType::PointerIndex(p), q[p as int].index))
    } else {
        let h = first_fresh(q, walk, 0);
        if h < q.len() {
            Some((h as usize, IndexType::PointerIndex(h as usize), q[h].index))
        } else {
            None
        }
    }
}

/// `walk` is the walk over the queue `q`: loop after loop in the order of
/// their least slots, each loop from its least slot rightwards.
#[verifier::opaque]
pub open spec fn is_walk(q: Seq<Node>, walk: Seq<Visit>) -> bool {
    &&& forall|i: int| 0 <= i < walk.len() ==> next_visit(q, #[trigger] walk.take(i)) == Some(walk[i])
    &&& next_visit(q, walk) is None
}

/// The walk over the queue `q`.
pub open spec fn walk_of(q: Seq<Node>) -> Seq<Visit> {
    choose|walk: Seq<Visit>| is_walk(q, walk)
}

/// A visit names an active slot, the vertex record in it, and an active head.
pub open spec fn visit_ok(q: Seq<Node>, v: Visit) -> bool {
    &&& v.1 is PointerIndex
    &&& is_active(q, v.1.value() as int)
    &&& is_active(q, v.0 as int)
    &&& v.2 == q[v.1.value() as int].index
}

/// The walk over a queue is unique.
pub proof fn lemma_walk_unique(q: Seq<Node>, a: Seq<Visit>, b: Seq<Visit>)
    requires
        is_walk(q, a),
        is_walk(q, b),
    ensures
        a == b,
{
    reveal(is_walk);
    lemma_walk_common(q, a, b, if a.len() <= b.len() {
        a.len() as int
    } else {
        b.len() as int
    });
    if a.len() < b.len() {
        assert(a.take(a.len() as int) =~= a);
        assert(next_visit(q, b.take(a.len() as int)) == Some(b[a.len() as int]));
    } else if b.len() < a.len() {
        assert(b.take(b.len() as int) =~= b);
        assert(next_visit(q, a.take(b.len() as int)) == Some(a[b.len() as int]));
    } else {
        assert(a.take(a.len() as int) =~= a);
        assert(b.take(b.len() as int) =~= b);
    }
}

/// Two walks over one queue begin alike, as far as both go.
proof fn lemma_walk_common(q: Seq<Node>, a: Seq<Visit>, b: Seq<Visit>, n: int)
    requires
        is_walk(q, a),
        is_walk(q, b),
        0 <= n <= a.len(),
        n <= b.len(),
    ensures
        a.take(n) == b.take(n),
    decreases n,
{
    reveal(is_walk);
    if n == 0 {
        assert(a.take(0) =~= b.take(0));
    } else {
        lemma_walk_common(q, a, b, n - 1);
        assert(next_visit(q, a.take(n - 1)) == Some(a[n - 1]));
        assert(next_visit(q, b.take(n - 1)) == Some(b[n - 1]));
        assert(a.take(n) =~= a.take(n - 1).push(a[n - 1]));
        assert(b.take(n) =~= b.take(n - 1).push(b[n - 1]));
    }
}

/// A walk that follows `next_visit` up to its end still does so after the
/// next visit was added.
proof fn lemma_walk_push(q: Seq<Node>, walk: Seq<Visit>, v: Visit)
    requires
        forall|i: int| 0 <= i < walk.len() ==> next_visit(q, #[trigger] walk.take(i)) == Some(walk[i]),
        next_visit(q, walk) == Some(v),
    ensures
        forall|i: int|
            0 <= i < walk.len() + 1 ==> next_visit(q, #[trigger] walk.push(v).take(i)) == Some(
                walk.push(v)[i],
            ),
{
    assert forall|i: int| 0 <= i < walk.len() + 1 implies next_visit(
        q,
        #[trigger] walk.push(v).take(i),
    ) == Some(walk.push(v)[i]) by {
        if i < walk.len() {
            assert(walk.push(v).take(i) =~= walk.take(i));
        } else {
            assert(walk.push(v).take(i) =~= walk);
        }
    }
}

/// Where every slot from `from` up to `h` is done or visited and `h` is
/// neither, `h` is the first fresh slot.
pub proof fn lemma_first_fresh_is(q: Seq<Node>, walk: Seq<Visit>, from: int, h: int)
    requires
        0 <= from <= h < q.len(),
        forall|s: int| from <= s < h && !q[s].done ==> visited_in(walk, s),
        !q[h].done,
        !visited_in(walk, h),
    ensures
        first_fresh(q, walk, from) == h,
    decreases h - from,
{
    if from < h {
        lemma_first_fresh_is(q, walk, from + 1, h);
    }
}

/// Where every slot from `from` on is done or visited, no slot is fresh.
pub proof fn lemma_first_fresh_none(q: Seq<Node>, walk: Seq<Visit>, from: int)
    requires
        0 <= from <= q.len(),
        forall|s: int| from <= s < q.len() && !q[s].done ==> visited_in(walk, s),
    ensures
        first_fresh(q, walk, from) == q.len(),
    decreases q.len() - from,
{
    if from < q.len() {
        lemma_first_fresh_none(q, walk, from + 1);
    }
}

/// The number of slots not yet marked.
pub open spec fn unmarked(marks: Seq<bool>) -> nat
    decreases marks.len(),
{
    if marks.len() == 0 {
        0
    } else {
        unmarked(marks.drop_last()) + if marks.last() {
            0nat
        } else {
            1nat
        }
    }
}

/// Marking a slot that was not marked leaves one unmarked slot fewer.
pub proof fn lemma_mark(marks: Seq<bool>, i: int)
    requires
        0 <= i < marks.len(),
        !marks[i],
    ensures
        unmarked(marks.update(i, true)) + 1 == unmarked(marks),
    decreases marks.len(),
{
    if i == marks.len() - 1 {
        assert(marks.update(i, true).drop_last() =~= marks.drop_last());
    } else {
        lemma_mark(marks.drop_last(), i);
        assert(marks.update(i, true).drop_last() =~= marks.drop_last().update(i, true));
    }
}

/// The records that tie a walk in progress to the marks set so far: `at[s]`
/// is the place of slot `s` in the walk, or negative while `s` is unvisited.
#[verifier::opaque]
spec fn booked(q: Seq<Node>, walk: Seq<Visit>, marks: Seq<bool>, at: Seq<int>) -> bool {
    &&& marks.len() == q.len()
    &&& at.len() == q.len()
    &&& forall|s: int| 0 <= s < q.len() ==> (marks[s] <==> #[trigger] at[s] >= 0)
    &&& forall|s: int|
        0 <= s < q.len() && #[trigger] at[s] >= 0 ==> at[s] < walk.len() && walk[at[s]].1.value()
            == s
    &&& forall|i: int| 0 <= i < walk.len() ==> visit_ok(q, #[trigger] walk[i])
    &&& forall|i: int| 0 <= i < walk.len() ==> #[trigger] at[walk[i].1.value() as int] == i
}

/// The visits before place `g` form whole loops: the neighbours of each of
/// their slots were visited before `g` too.
#[verifier::opaque]
spec fn closed_before(q: Seq<Node>, walk: Seq<Visit>, at: Seq<int>, g: int) -> bool {
    forall|i: int|
        0 <= i < g ==> {
            let s = (#[trigger] walk[i]).1.value() as int;
            &&& 0 <= at[q[s].left as int] < g
            &&& 0 <= at[q[s].right as int] < g
        }
}

/// From place `g` on the walk follows one loop rightwards from its head `h`.
#[verifier::opaque]
spec fn chained(q: Seq<Node>, walk: Seq<Visit>, g: int, h: usize) -> bool {
    &&& 0 <= g <= walk.len()
    &&& forall|i: int| g <= i < walk.len() ==> (#[trigger] walk[i]).0 == h
    &&& forall|i: int|
        g <= i < walk.len() - 1 ==> q[(#[trigger] walk[i]).1.value() as int].right == walk[i
            + 1].1.value()
    &&& walk.len() > g ==> walk[g].1.value() == h
}

/// Visiting an unmarked active slot keeps the records in order.
proof fn lemma_visit_booked(
    q: Seq<Node>,
    walk: Seq<Visit>,
    marks: Seq<bool>,
    at: Seq<int>,
    g: int,
    h: usize,
    p: usize,
)
    requires
        links_wf(q),
        booked(q, walk, marks, at),
        closed_before(q, walk, at, g),
        chained(q, walk, g, h),
        is_active(q, p as int),
        is_active(q, h as int),
        !marks[p as int],
        walk.len() == g ==> p == h,
        walk.len() > g ==> q[walk.last().1.value() as int].right == p,
    ensures
        ({
            let v = (h, IndexType::PointerIndex(p), q[p as int].index);
            let walk2 = walk.push(v);
            let at2 = at.update(p as int, walk.len() as int);
            &&& booked(q, walk2, marks.update(p as int, true), at2)
            &&& closed_before(q, walk2, at2, g)
            &&& chained(q, walk2, g, h)
        }),
{
    reveal(booked);
    reveal(closed_before);
    reveal(chained);
    let v = (h, IndexType::PointerIndex(p), q[p as int].index);
    let walk2 = walk.push(v);
    let at2 = at.update(p as int, walk.len() as int);
    assert forall|i: int| 0 <= i < walk2.len() implies visit_ok(q, #[trigger] walk2[i]) by {
        if i < walk.len() {
            assert(walk2[i] == walk[i]);
        }
    }
    assert forall|i: int| 0 <= i < walk2.len() implies #[trigger] at2[walk2[i].1.value() as int]
        == i by {
        if i < walk.len() {
            assert(walk2[i] == walk[i]);
            assert(at[walk[i].1.value() as int] == i);
        }
    }
    assert forall|s: int| 0 <= s < q.len() && #[trigger] at2[s] >= 0 implies at2[s] < walk2.len()
        && walk2[at2[s]].1.value() == s by {
        if s != p {
            assert(at[s] >= 0);
            assert(walk2[at2[s]] == walk[at[s]]);
        }
    }
    assert forall|s: int| 0 <= s < q.len() implies (marks.update(p as int, true)[s] <==> #[trigger] at2[s]
        >= 0) by {
        if s != p {
            assert(marks[s] <==> at[s] >= 0);
        }
    }
    assert forall|i: int| 0 <= i < g implies {
        let s = (#[trigger] walk2[i]).1.value() as int;
        &&& 0 <= at2[q[s].left as int] < g
        &&& 0 <= at2[q[s].right as int] < g
    } by {
        assert(walk2[i] == walk[i]);
        let s = walk[i].1.value() as int;
        assert(visit_ok(q, walk[i]));
        assert(is_active(q, s));
        assert(0 <= at[q[s].left as int] < g);
        assert(0 <= at[q[s].right as int] < g);
        assert(at[p as int] < 0);
    }
    assert forall|i: int| g <= i < walk2.len() - 1 implies q[(#[trigger] walk2[i]).1.value() as int].right
        == walk2[i + 1].1.value() by {
        if i < walk.len() - 1 {
            assert(walk2[i] == walk[i]);
            assert(walk2[i + 1] == walk[i + 1]);
        } else {
            assert(walk2[i] == walk.last());
        }
    }
    assert forall|i: int| g <= i < walk2.len() implies (#[trigger] walk2[i]).0 == h by {
        if i < walk.len() {
            assert(walk2[i] == walk[i]);
        }
    }
    if walk.len() > g {
        assert(walk2[g] == walk[g]);
    }
}

/// The right neighbour of the slot visited last is unmarked, unless it is
/// the head of the loop.
proof fn lemma_next_unmarked(
    q: Seq<Node>,
    walk: Seq<Visit>,
    marks: Seq<bool>,
    at: Seq<int>,
    g: int,
    h: usize,
)
    requires
        links_wf(q),
        booked(q, walk, marks, at),
        closed_before(q, walk, at, g),
        chained(q, walk, g, h),
        walk.len() > g,
        q[walk.last().1.value() as int].right != h,
    ensures
        is_active(q, q[walk.last().1.value() as int].right as int),
        !marks[q[walk.last().1.value() as int].right as int],
{
    reveal(booked);
    reveal(closed_before);
    reveal(chained);
    let p = walk.last().1.value() as int;
    let next = q[p].right as int;
    assert(visit_ok(q, walk[walk.len() - 1]));
    assert(is_active(q, p));
    assert(is_active(q, next));
    assert(q[next].left == p);
    assert(at[p] == walk.len() - 1);
    if marks[next] {
        let i = at[next];
        assert(walk[i].1.value() == next);
        if i < g {
            assert(0 <= at[q[walk[i].1.value() as int].left as int] < g);
        } else if i == g {
        } else {
            let prev = walk[i - 1].1.value() as int;
            assert(q[prev].right == next);
            assert(visit_ok(q, walk[i - 1]));
            assert(is_active(q, prev));
            assert(q[q[prev].right as int].left == prev);
            assert(at[prev] == i - 1);
        }
        assert(false);
    }
}

/// Once the walk is back at the head, the loop just walked is whole.
proof fn lemma_loop_closed(
    q: Seq<Node>,
    walk: Seq<Visit>,
    marks: Seq<bool>,
    at: Seq<int>,
    g: int,
    h: usize,
)
    requires
        links_wf(q),
        booked(q, walk, marks, at),
        closed_before(q, walk, at, g),
        chained(q, walk, g, h),
        walk.len() > g,
        q[walk.last().1.value() as int].right == h,
    ensures
        closed_before(q, walk, at, walk.len() as int),
        walk.last().0 == h,
{
    reveal(booked);
    reveal(closed_before);
    reveal(chained);
    let last = walk.last().1.value() as int;
    assert(visit_ok(q, walk[walk.len() - 1]));
    assert(is_active(q, last));
    assert(q[q[last].right as int].left == last);
    assert(at[walk[walk.len() - 1].1.value() as int] == walk.len() - 1);
    assert(at[walk[g].1.value() as int] == g);
    assert forall|i: int| 0 <= i < walk.len() implies {
        let s = (#[trigger] walk[i]).1.value() as int;
        &&& 0 <= at[q[s].left as int] < walk.len()
        &&& 0 <= at[q[s].right as int] < walk.len()
    } by {
        let s = walk[i].1.value() as int;
        if i >= g {
            assert(visit_ok(q, walk[i]));
            if i < walk.len() - 1 {
                assert(q[s].right == walk[i + 1].1.value());
                assert(at[walk[i + 1].1.value() as int] == i + 1);
            } else {
                assert(q[s].right == h);
            }
            if i > g {
                let prev = walk[i - 1].1.value() as int;
                assert(visit_ok(q, walk[i - 1]));
                assert(is_active(q, prev));
                assert(q[prev].right == s);
                assert(q[s].left == prev);
                assert(at[prev] == i - 1);
            } else {
                assert(s == h);
                assert(q[s].left == last);
            }
        }
    }
}

/// Before the walk begins nothing is marked and nothing is visited.
proof fn lemma_walk_start(q: Seq<Node>, marks: Seq<bool>)
    requires
        marks.len() == q.len(),
        forall|s: int| 0 <= s < marks.len() ==> !marks[s],
    ensures
        booked(q, Seq::<Visit>::empty(), marks, Seq::new(q.len(), |s: int| -1int)),
        closed_before(q, Seq::<Visit>::empty(), Seq::new(q.len(), |s: int| -1int), 0),
{
    reveal(booked);
    reveal(closed_before);
}

/// A loop about to be walked is chained so far.
proof fn lemma_chain_start(q: Seq<Node>, walk: Seq<Visit>, h: usize)
    ensures
        chained(q, walk, walk.len() as int, h),
{
    reveal(chained);
}

/// A slot that the records show as unmarked does not occur in the walk, and
/// one that they show as marked does.
proof fn lemma_marks_mean(q: Seq<Node>, walk: Seq<Visit>, marks: Seq<bool>, at: Seq<int>, s: int)
    requires
        booked(q, walk, marks, at),
        0 <= s < q.len(),
    ensures
        marks[s] <==> visited_in(walk, s),
{
    reveal(booked);
    reveal(closed_before);
    reveal(chained);
    if marks[s] {
        assert(at[s] >= 0);
        assert(walk[at[s]].1.value() == s);
    }
    if visited_in(walk, s) {
        let i = choose|i: int| 0 <= i < walk.len() && (#[trigger] walk[i]).1.value() == s;
        assert(at[walk[i].1.value() as int] == i);
    }
}

/// A slot that heads the scan of `live` is the first fresh slot when it is
/// active and unmarked.
proof fn lemma_head_is_fresh(
    q: Seq<Node>,
    live: Seq<usize>,
    walk: Seq<Visit>,
    marks: Seq<bool>,
    at: Seq<int>,
    k: int,
)
    requires
        booked(q, walk, marks, at),
        0 <= k < live.len(),
        forall|i: int| 0 <= i < live.len() ==> #[trigger] live[i] < q.len(),
        forall|i: int, j: int| 0 <= i < j < live.len() ==> #[trigger] live[i] < #[trigger] live[j],
        forall|p: int| #[trigger]
            is_active(q, p) ==> exists|i: int| 0 <= i < live.len() && #[trigger] live[i] == p,
        forall|i: int| 0 <= i < k && !q[live[i] as int].done ==> marks[#[trigger] live[i] as int],
        !q[live[k] as int].done,
        !marks[live[k] as int],
    ensures
        first_fresh(q, walk, 0) == live[k],
{
    reveal(booked);
    reveal(closed_before);
    reveal(chained);
    let h = live[k] as int;
    assert forall|s: int| 0 <= s < h && !q[s].done implies visited_in(walk, s) by {
        assert(is_active(q, s));
        let i = choose|i: int| 0 <= i < live.len() && #[trigger] live[i] == s;
        assert(i < k) by {
            if i > k {
                assert(live[k] < live[i]);
            }
        }
        assert(marks[live[i] as int]);
        lemma_marks_mean(q, walk, marks, at, s);
    }
    lemma_marks_mean(q, walk, marks, at, h);
    lemma_first_fresh_is(q, walk, 0, h);
}

/// When the scan of `live` is over, the walk is complete.
proof fn lemma_scan_done(
    q: Seq<Node>,
    live: Seq<usize>,
    walk: Seq<Visit>,
    marks: Seq<bool>,
    at: Seq<int>,
)
    requires
        booked(q, walk, marks, at),
        forall|p: int| #[trigger]
            is_active(q, p) ==> exists|i: int| 0 <= i < live.len() && #[trigger] live[i] == p,
        forall|i: int|
            0 <= i < live.len() && !q[live[i] as int].done ==> marks[#[trigger] live[i] as int],
    ensures
        forall|p: int| #[trigger] is_active(q, p) ==> visited_in(walk, p),
        first_fresh(q, walk, 0) == q.len(),
        forall|i: int, j: int|
            0 <= i < j < walk.len() ==> (#[trigger] walk[i]).1 != (#[trigger] walk[j]).1,
        forall|i: int| 0 <= i < walk.len() ==> visit_ok(q, #[trigger] walk[i]),
{
    reveal(booked);
    reveal(closed_before);
    reveal(chained);
    assert forall|p: int| #[trigger] is_active(q, p) implies visited_in(walk, p) by {
        let i = choose|i: int| 0 <= i < live.len() && #[trigger] live[i] == p;
        assert(marks[live[i] as int]);
        lemma_marks_mean(q, walk, marks, at, p);
    }
    assert forall|s: int| 0 <= s < q.len() && !q[s].done implies visited_in(walk, s) by {
        assert(is_active(q, s));
    }
    lemma_first_fresh_none(q, walk, 0);
    assert forall|i: int, j: int| 0 <= i < j < walk.len() implies (#[trigger] walk[i]).1 != (
    #[trigger] walk[j]).1 by {
        assert(at[walk[i].1.value() as int] == i);
        assert(at[walk[j].1.value() as int] == j);
    }
}

impl VertexQueue {
    /// Walks over the queue and returns what it visits: every active slot
    /// once, loop after loop, each visit with the head of its loop, the slot
    /// and the vertex record in the slot.
    #[verifier::rlimit(50)]
    pub fn iter(&self) -> (walk: Vec<Visit>)
        requires
            self.wf(),
        ensures
            is_walk(self@, walk@),
            walk@ == walk_of(self@),
            forall|i: int| 0 <= i < walk@.len() ==> visit_ok(self@, #[trigger] walk@[i]),
            forall|i: int, j: int|
                0 <= i < j < walk@.len() ==> (#[trigger] walk@[i]).1 != (#[trigger] walk@[j]).1,
            forall|p: int| #[trigger] is_active(self@, p) ==> visited_in(walk@, p),
    {
        let n = self.content.len();
        let m = self.live.len();
        let mut marks: Vec<bool> = Vec::new();
        let mut c: usize = 0;
        while c < n
            invariant
                c <= n,
                marks@.len() == c,
                forall|s: int| 0 <= s < c ==> !marks@[s],
            decreases n - c,
        {
            marks.push(false);
            c += 1;
        }
        let mut walk: Vec<Visit> = Vec::new();
        let ghost q = self@;
        let ghost mut at: Seq<int> = Seq::new(n as nat, |s: int| -1int);
        proof {
            lemma_walk_start(q, marks@);
            assert(walk@ =~= Seq::<Visit>::empty());
        }
        let mut k: usize = 0;
        while k < m
            invariant
                self.wf(),
                q == self@,
                n == q.len(),
                m == self.live@.len(),
                k <= m,
                marks@.len() == n,
                at.len() == n,
                booked(q, walk@, marks@, at),
                closed_before(q, walk@, at, walk@.len() as int),
                forall|i: int|
                    0 <= i < k && !q[self.live@[i] as int].done ==> marks@[#[trigger] self.live@[i] as int],
                forall|i: int|
                    0 <= i < walk@.len() ==> next_visit(q, #[trigger] walk@.take(i)) == Some(
                        walk@[i],
                    ),
                walk@.len() > 0 ==> q[walk@.last().1.value() as int].right == walk@.last().0,
            decreases m - k,
        {
            let h = self.live[k];
            if !self.content[h].done && !marks[h] {
                let ghost g = walk@.len() as int;
                proof {
                    lemma_head_is_fresh(q, self.live@, walk@, marks@, at, k as int);
                    lemma_chain_start(q, walk@, h);
                }
                let mut p = h;
                let mut open = true;
                while open
                    invariant
                        self.wf(),
                        q == self@,
                        n == q.len(),
                        is_active(q, h as int),
                        marks@.len() == n,
                        at.len() == n,
                        0 <= g <= walk@.len(),
                        walk@.len() > g ==> marks@[h as int],
                        booked(q, walk@, marks@, at),
                        closed_before(q, walk@, at, g),
                        chained(q, walk@, g, h),
                        forall|i: int|
                            0 <= i < k && !q[self.live@[i] as int].done ==> marks@[#[trigger] self.live@[i] as int],
                        forall|i: int|
                            0 <= i < walk@.len() ==> next_visit(q, #[trigger] walk@.take(i))
                                == Some(walk@[i]),
                        open ==> {
                            &&& is_active(q, p as int)
                            &&& !marks@[p as int]
                            &&& next_visit(q, walk@) == Some(
                                (h, IndexType::PointerIndex(p), q[p as int].index),
                            )
                            &&& walk@.len() == g ==> p == h
                            &&& walk@.len() > g ==> q[walk@.last().1.value() as int].right == p
                        },
                        !open ==> walk@.len() > g && q[walk@.last().1.value() as int].right == h,
                    decreases unmarked(marks@) + if open { 1nat } else { 0nat },
                {
                    let v: Visit = (h, IndexType::PointerIndex(p), self.content[p].index);
                    proof {
                        lemma_walk_push(q, walk@, v);
                        lemma_mark(marks@, p as int);
                        assert(links_wf(q));
                        lemma_visit_booked(q, walk@, marks@, at, g, h, p);
                        at = at.update(p as int, walk@.len() as int);
                    }
                    walk.push(v);
                    marks.set(p, true);
                    let next = self.content[p].right;
                    if next == h {
                        open = false;
                    } else {
                        proof {
                            lemma_next_unmarked(q, walk@, marks@, at, g, h);
                        }
                        p = next;
                    }
                }
                proof {
                    lemma_loop_closed(q, walk@, marks@, at, g, h);
                }
            }
            k += 1;
        }
        proof {
            lemma_scan_done(q, self.live@, walk@, marks@, at);
            assert(is_walk(q, walk@)) by {
                reveal(is_walk);
            }
            assert(is_walk(q, walk_of(q)));
            lemma_walk_unique(q, walk@, walk_of(q));
        }
        walk
    }
}


/// The slots of one boundary loop that starts at slot `base` and holds the
/// vertex records `reals` in order: each slot is linked to its neighbours
/// round the loop.
pub open spec fn ring(base: int, reals: Seq<usize>) -> Seq<Node> {
    Seq::new(
        reals.len(),
        |j: int|
            Node {
                index: reals[j],
                left: (base + if j == 0 {
                    reals.len() - 1
                } else {
                    j - 1
                }) as usize,
                right: (base + if j + 1 == reals.len() {
                    0
                } else {
                    j + 1
                }) as usize,
                done: false,
            },
    )
}

/// The table of slots for the boundary loops `loops`, one loop after the
/// other.
pub open spec fn initial(loops: Seq<Seq<usize>>) -> Seq<Node>
    decreases loops.len(),
{
    if loops.len() == 0 {
        Seq::empty()
    } else {
        let before = initial(loops.drop_last());
        before + ring(before.len() as int, loops.last())
    }
}

/// The boundary loops held by `loops`, as sequences.
pub open spec fn loops_view(loops: &Vec<Vec<usize>>) -> Seq<Seq<usize>> {
    Seq::new(loops@.len(), |i: int| loops@[i]@)
}

/// The table for the first loops is no longer than the table for all.
pub proof fn lemma_initial_len(loops: Seq<Seq<usize>>, k: int)
    requires
        0 <= k <= loops.len(),
    ensures
        initial(loops.take(k)).len() <= initial(loops).len(),
    decreases loops.len() - k,
{
    if k == loops.len() {
        assert(loops.take(k) =~= loops);
    } else {
        lemma_initial_len(loops, k + 1);
        assert(loops.take(k + 1).drop_last() =~= loops.take(k));
    }
}

/// The initial table is well linked and all of its slots are active.
pub proof fn lemma_initial_wf(loops: Seq<Seq<usize>>)
    requires
        initial(loops).len() <= usize::MAX,
    ensures
        links_wf(initial(loops)),
        forall|p: int| 0 <= p < initial(loops).len() ==> !(#[trigger] initial(loops)[p]).done,
    decreases loops.len(),
{
    if loops.len() > 0 {
        let before = initial(loops.drop_last());
        let r = ring(before.len() as int, loops.last());
        let all = initial(loops);
        lemma_initial_wf(loops.drop_last());
        assert forall|p: int| #[trigger] is_active(all, p) implies {
            &&& 0 <= all[p].left < all.len()
            &&& 0 <= all[p].right < all.len()
            &&& !all[all[p].left as int].done
            &&& !all[all[p].right as int].done
            &&& all[all[p].left as int].right == p
            &&& all[all[p].right as int].left == p
        } by {
            if p < before.len() {
                assert(all[p] == before[p]);
                assert(is_active(before, p));
                assert(all[before[p].left as int] == before[before[p].left as int]);
                assert(all[before[p].right as int] == before[before[p].right as int]);
            } else {
                let j = p - before.len();
                assert(all[p] == r[j]);
                let l = r[j].left as int;
                let rr = r[j].right as int;
                assert(all[l] == r[l - before.len()]);
                assert(all[rr] == r[rr - before.len()]);
            }
        }
        assert forall|p: int| 0 <= p < all.len() implies !(#[trigger] all[p]).done by {
            if p < before.len() {
                assert(all[p] == before[p]);
            } else {
                assert(all[p] == r[p - before.len()]);
            }
        }
    }
}

impl VertexQueue {
    /// Returns the queue for the boundary loops `loops`, each given by the
    /// vertex records of its corners in order: one slot per corner, linked
    /// round its loop, none done.
    #[verifier::rlimit(50)]
    pub fn init(loops: &Vec<Vec<usize>>) -> (r: Self)
        requires
            initial(loops_view(loops)).len() <= usize::MAX,
        ensures
            r@ == initial(loops_view(loops)),
            r.live@ == Seq::new(r@.len(), |p: int| p as usize),
            r.wf(),
    {
        let mut content: Vec<Node> = Vec::new();
        let mut live: Vec<usize> = Vec::new();
        let ghost all = loops_view(loops);
        let mut k: usize = 0;
        proof {
            assert(all.take(0) =~= Seq::<Seq<usize>>::empty());
        }
        while k < loops.len()
            invariant
                k <= loops.len(),
                all == loops_view(loops),
                initial(all).len() <= usize::MAX,
                content@ == initial(all.take(k as int)),
                live@.len() == content@.len(),
                forall|i: int| 0 <= i < live@.len() ==> #[trigger] live@[i] == i,
            decreases loops.len() - k,
        {
            let reals = &loops[k];
            let n = reals.len();
            let base = content.len();
            proof {
                assert(all.take(k + 1).drop_last() =~= all.take(k as int));
                assert(all.take(k + 1).last() == reals@);
                lemma_initial_len(all, k + 1);
                assert(initial(all.take(k + 1)) == content@ + ring(base as int, reals@));
            }
            let mut j: usize = 0;
            while j < n
                invariant
                    j <= n,
                    n == reals@.len(),
                    base + n <= usize::MAX,
                    content@ =~= initial(all.take(k as int)) + ring(base as int, reals@).take(j as int),
                    initial(all.take(k as int)).len() == base,
                    live@.len() == content@.len(),
                    forall|i: int| 0 <= i < live@.len() ==> #[trigger] live@[i] == i,
                decreases n - j,
            {
                let left = base + if j == 0 {
                    n - 1
                } else {
                    j - 1
                };
                let right = base + if j + 1 == n {
                    0
                } else {
                    j + 1
                };
                live.push(content.len());
                content.push(Node { index: reals[j], left, right, done: false });
                proof {
                    assert(ring(base as int, reals@).take(j + 1) =~= ring(base as int, reals@).take(
                        j as int,
                    ).push(ring(base as int, reals@)[j as int]));
                }
                j += 1;
            }
            proof {
                assert(ring(base as int, reals@).take(n as int) =~= ring(base as int, reals@));
            }
            k += 1;
        }
        proof {
            assert(all.take(k as int) =~= all);
            lemma_initial_wf(all);
        }
        let r = VertexQueue { content, live };
        proof {
            assert(r.live@ =~= Seq::new(r@.len(), |p: int| p as usize));
            assert forall|p: int| #[trigger] is_active(r.content@, p) implies exists|i: int|
                0 <= i < r.live@.len() && #[trigger] r.live@[i] == p by {
                assert(r.live@[p] == p);
            }
        }
        r
    }
}

} // verus!
