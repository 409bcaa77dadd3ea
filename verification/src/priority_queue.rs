//! A priority queue: a binary heap that hands out first the item that, by
//! the order of its type, comes first.
use vstd::multiset::Multiset;
use vstd::prelude::*;
use vstd::seq_lib::{to_multiset_build, to_multiset_contains, to_multiset_remove, to_multiset_update};

verus! {

/// A type whose values are ordered by priority. The order is strict; two
/// values of which neither precedes the other are of one rank, and what
/// holds of the order between one of them and a third value holds of the
/// other too.
pub trait Prioritized: Copy {
    /// `self` comes strictly before `other`.
    spec fn precedes(self, other: Self) -> bool;

    /// Returns whether `self` comes strictly before `other`.
    fn is_before(&self, other: &Self) -> (r: bool)
        ensures
            r == self.precedes(*other),
    ;

    /// The order is irreflexive and transitive, and so is the order of the
    /// ranks.
    proof fn lemma_order(a: Self, b: Self, c: Self)
        ensures
            !a.precedes(a),
            a.precedes(b) && b.precedes(c) ==> a.precedes(c),
            !b.precedes(a) && !c.precedes(b) ==> !c.precedes(a),
    ;
}

/// The place of the parent of place `i` in the heap.
pub open spec fn parent(i: int) -> int {
    (i - 1) / 2
}

/// No item comes before its parent in the heap.
pub open spec fn heap_ordered<T: Prioritized>(s: Seq<T>) -> bool {
    forall|i: int| 0 < i < s.len() ==> !(#[trigger] s[i]).precedes(s[parent(i)])
}

/// The heap order holds everywhere but between place `i` and its parent,
/// and what stands below `i` does not come before what stands above it.
spec fn ordered_but_above<T: Prioritized>(s: Seq<T>, i: int) -> bool {
    &&& forall|j: int| 0 < j < s.len() && j != i ==> !(#[trigger] s[j]).precedes(s[parent(j)])
    &&& forall|j: int|
        0 < j < s.len() && parent(j) == i && i > 0 ==> !(#[trigger] s[j]).precedes(
            s[parent(i)],
        )
}

/// The heap order holds everywhere but between place `i` and its children,
/// and what stands below `i` does not come before what stands above it.
spec fn ordered_but_below<T: Prioritized>(s: Seq<T>, i: int) -> bool {
    &&& forall|j: int|
        0 < j < s.len() && parent(j) != i ==> !(#[trigger] s[j]).precedes(s[parent(j)])
    &&& forall|j: int|
        0 < j < s.len() && parent(j) == i && i > 0 ==> !(#[trigger] s[j]).precedes(
            s[parent(i)],
        )
}

/// In an ordered heap nothing comes before the root.
pub proof fn lemma_root_first<T: Prioritized>(s: Seq<T>, i: int)
    requires
        heap_ordered(s),
        0 <= i < s.len(),
    ensures
        !s[i].precedes(s[0]),
    decreases i,
{
    if i > 0 {
        lemma_root_first(s, parent(i));
        assert(!s[i].precedes(s[parent(i)]));
        T::lemma_order(s[0], s[parent(i)], s[i]);
    } else {
        T::lemma_order(s[0], s[0], s[0]);
    }
}

/// Exchanging two places keeps what the sequence holds.
proof fn lemma_exchange<T: Prioritized>(s: Seq<T>, i: int, j: int)
    requires
        0 <= i < s.len(),
        0 <= j < s.len(),
    ensures
        s.update(i, s[j]).update(j, s[i]).to_multiset() == s.to_multiset(),
{
    let once = s.update(i, s[j]);
    to_multiset_update(s, i, s[j]);
    to_multiset_update(once, j, s[i]);
    to_multiset_contains(s, s[i]);
    to_multiset_contains(s, s[j]);
    assert(s.contains(s[i]));
    assert(s.contains(s[j]));
    assert(once.update(j, s[i]).to_multiset() =~= s.to_multiset());
}

/// Items ready to be taken in the order of their priority.
#[derive(Debug)]
pub struct PriorityQueue<T: Prioritized> {
    /// The items, laid out as a heap: the item at place `i` does not come
    /// after the items at the places `2 * i + 1` and `2 * i + 2`.
    pub content: Vec<T>,
}

impl<T: Prioritized> View for PriorityQueue<T> {
    type V = Multiset<T>;

    open spec fn view(&self) -> Multiset<T> {
        self.content@.to_multiset()
    }
}

impl<T: Prioritized> PriorityQueue<T> {
    /// The items are laid out as a heap.
    pub open spec fn wf(&self) -> bool {
        heap_ordered(self.content@)
    }

    /// `x` is in the queue and nothing in the queue comes before it.
    pub open spec fn is_first(queue: Multiset<T>, x: T) -> bool {
        &&& queue.contains(x)
        &&& forall|y: T| queue.contains(y) ==> !y.precedes(x)
    }

    /// Returns a queue that holds nothing.
    pub fn new() -> (r: Self)
        ensures
            r@ == Multiset::<T>::empty(),
            r.wf(),
    {
        let r = PriorityQueue { content: Vec::new() };
        assert(r.content@.to_multiset() =~= Multiset::<T>::empty()) by {
            broadcast use vstd::seq_lib::group_to_multiset_ensures;

        }
        r
    }

    /// Returns whether the queue holds nothing.
    pub fn is_empty(&self) -> (r: bool)
        ensures
            r == (self@.len() == 0),
    {
        proof {
            self.content@.to_multiset_ensures();
        }
        self.content.len() == 0
    }

    /// Returns the number of items in the queue.
    pub fn len(&self) -> (r: usize)
        ensures
            r == self@.len(),
    {
        proof {
            self.content@.to_multiset_ensures();
        }
        self.content.len()
    }

    /// Returns the item that comes first, and leaves it in the queue.
    pub fn peek(&self) -> (r: Option<T>)
        requires
            self.wf(),
        ensures
            match r {
                None => self@.len() == 0,
                Some(x) => Self::is_first(self@, x),
            },
    {
        proof {
            self.content@.to_multiset_ensures();
        }
        if self.content.len() == 0 {
            None
        } else {
            let x = self.content[0];
            proof {
                lemma_first_of_heap(self.content@);
            }
            Some(x)
        }
    }

    /// Exchanges what stands at the places `i` and `j`.
    fn exchange(&mut self, i: usize, j: usize)
        requires
            i < old(self).content@.len(),
            j < old(self).content@.len(),
        ensures
            final(self).content@ == old(self).content@.update(i as int, old(self).content@[j as int]).update(
                j as int,
                old(self).content@[i as int],
            ),
            final(self)@ == old(self)@,
    {
        let a = self.content[i];
        let b = self.content[j];
        proof {
            lemma_exchange(self.content@, i as int, j as int);
        }
        self.content.set(i, b);
        self.content.set(j, a);
    }

    /// Adds `item` to the queue.
    #[verifier::rlimit(50)]
    pub fn insert(&mut self, item: T)
        requires
            old(self).wf(),
        ensures
            final(self)@ == old(self)@.insert(item),
            final(self).wf(),
    {
        proof {
            to_multiset_build(self.content@, item);
        }
        self.content.push(item);
        let mut i = self.content.len() - 1;
        while i > 0 && self.content[i].is_before(&self.content[(i - 1) / 2])
            invariant
                i < self.content@.len(),
                self@ == old(self)@.insert(item),
                ordered_but_above(self.content@, i as int),
            decreases i,
        {
            let p = (i - 1) / 2;
            let ghost s = self.content@;
            self.exchange(i, p);
            proof {
                let t = self.content@;
                assert forall|j: int| 0 < j < t.len() && j != p implies !(#[trigger] t[j]).precedes(
                    t[parent(j)],
                ) by {
                    if j == i {
                        T::lemma_order(s[i as int], s[p as int], s[i as int]);
                    } else if parent(j) == p {
                        assert(!s[j].precedes(s[parent(j)]));
                        T::lemma_order(s[i as int], s[p as int], s[i as int]);
                        T::lemma_order(s[i as int], s[p as int], s[j]);
                    } else {
                        assert(!s[j].precedes(s[parent(j)]));
                    }
                }
                assert forall|j: int| 0 < j < t.len() && parent(j) == p && p > 0 implies !(
                #[trigger] t[j]).precedes(t[parent(p as int)]) by {
                    assert(!s[p as int].precedes(s[parent(p as int)]));
                    if j != i {
                        assert(!s[j].precedes(s[parent(j)]));
                        T::lemma_order(s[parent(p as int)], s[p as int], s[j]);
                    }
                }
            }
            i = p;
        }
    }

    /// Takes the item that comes first out of the queue and returns it.
    #[verifier::rlimit(50)]
    pub fn pop(&mut self) -> (r: Option<T>)
        requires
            old(self).wf(),
        ensures
            final(self).wf(),
            match r {
                None => old(self)@.len() == 0 && final(self)@ == old(self)@,
                Some(x) => Self::is_first(old(self)@, x) && final(self)@ == old(self)@.remove(x),
            },
    {
        proof {
            self.content@.to_multiset_ensures();
        }
        let n = self.content.len();
        if n == 0 {
            return None;
        }
        proof {
            lemma_first_of_heap(self.content@);
        }
        let ghost before = self.content@;
        self.exchange(0, n - 1);
        let ghost turned = self.content@;
        let x = self.content.pop().unwrap();
        proof {
            to_multiset_remove(turned, n - 1);
            assert(turned.remove(n - 1) =~= self.content@);
            assert forall|j: int| 0 < j < self.content@.len() && parent(j) != 0 implies !(
            #[trigger] self.content@[j]).precedes(self.content@[parent(j)]) by {
                assert(!before[j].precedes(before[parent(j)]));
            }
        }
        let m = self.content.len();
        let mut i: usize = 0;
        let mut sinking = true;
        while sinking
            invariant
                m == self.content@.len(),
                self@ == old(self)@.remove(x),
                sinking ==> ordered_but_below(self.content@, i as int),
                sinking ==> i < m || m == 0,
                !sinking ==> heap_ordered(self.content@),
            decreases (if sinking { 1int } else { 0int }), m - i,
        {
            if m == 0 || i >= m / 2 {
                proof {
                    assert forall|j: int| 0 < j < m implies !(#[trigger] self.content@[j]).precedes(
                        self.content@[parent(j)],
                    ) by {
                        assert(parent(j) != i);
                    }
                }
                sinking = false;
            } else {
                let l = 2 * i + 1;
                let r = l + 1;
                let c = if r < m && self.content[r].is_before(&self.content[l]) {
                    r
                } else {
                    l
                };
                if self.content[c].is_before(&self.content[i]) {
                    let ghost s = self.content@;
                    self.exchange(i, c);
                    proof {
                        let t = self.content@;
                        assert forall|j: int| 0 < j < t.len() && parent(j) != c implies !(
                        #[trigger] t[j]).precedes(t[parent(j)]) by {
                            if parent(j) == i {
                                assert(j == l || j == r);
                                if j == c {
                                    T::lemma_order(s[c as int], s[i as int], s[c as int]);
                                } else if c == r {
                                    T::lemma_order(s[r as int], s[l as int], s[r as int]);
                                }
                            } else if j == i {
                                assert(!s[c as int].precedes(s[parent(i as int)]));
                            } else {
                                assert(!s[j].precedes(s[parent(j)]));
                            }
                        }
                        assert forall|j: int| 0 < j < t.len() && parent(j) == c && c > 0 implies !(
                        #[trigger] t[j]).precedes(t[parent(c as int)]) by {
                            assert(!s[j].precedes(s[parent(j)]));
                        }
                    }
                    i = c;
                } else {
                    proof {
                        let s = self.content@;
                        assert forall|j: int| 0 < j < m implies !(#[trigger] s[j]).precedes(
                            s[parent(j)],
                        ) by {
                            if parent(j) == i {
                                assert(j == l || j == r);
                                if j != c {
                                    if c == r {
                                        T::lemma_order(s[r as int], s[l as int], s[r as int]);
                                    }
                                    T::lemma_order(s[i as int], s[c as int], s[j]);
                                }
                            }
                        }
                    }
                    sinking = false;
                }
            }
        }
        Some(x)
    }
}

/// The root of a heap that holds something comes first of all it holds.
proof fn lemma_first_of_heap<T: Prioritized>(s: Seq<T>)
    requires
        heap_ordered(s),
        s.len() > 0,
    ensures
        PriorityQueue::<T>::is_first(s.to_multiset(), s[0]),
{
    to_multiset_contains(s, s[0]);
    assert(s.contains(s[0]));
    assert forall|y: T| s.to_multiset().contains(y) implies !y.precedes(s[0]) by {
        to_multiset_contains(s, y);
        let i = choose|i: int| 0 <= i < s.len() && s[i] == y;
        lemma_root_first(s, i);
    }
}

} // verus!
