//! The two kinds of event record: what the simulation has logged, and what it
//! has scheduled. Both are ordered by keys made of integers.
use crate::priority_queue::Prioritized;
use crate::vertex_queue::IndexType;
use std::cmp::Ordering;
use vstd::prelude::*;
use vstd::std_specs::cmp::PartialOrdSpecImpl;

verus! {

/// An event that has fired, as the log keeps it.
#[derive(Clone, Copy, Debug, PartialEq, Eq, Structural)]
pub enum Event {
    /// Two neighbours met: the slot `merge_from` left the wavefront and the
    /// slot on its right went on as the vertex record `merge_to`.
    VertexEvent { time: i64, merge_from: usize, merge_to: usize },
    /// The vertex in slot `split_from` struck the edge to the right of slot
    /// `split_into`, and went on as the two vertex records `split_to_left`
    /// and `split_to_right`.
    EdgeEvent {
        time: i64,
        split_from: usize,
        split_into: usize,
        split_to_left: usize,
        split_to_right: usize,
    },
}

/// A lexicographic key of five numbers.
pub type Key5 = (int, int, int, int, int);

/// A lexicographic key of seven numbers.
pub type Key7 = (int, int, int, int, int, int, int);

/// `a` comes strictly before `b` in lexicographic order.
pub open spec fn before5(a: Key5, b: Key5) -> bool {
    a.0 < b.0 || (a.0 == b.0 && (a.1 < b.1 || (a.1 == b.1 && (a.2 < b.2 || (a.2 == b.2 && (a.3
        < b.3 || (a.3 == b.3 && a.4 < b.4)))))))
}

/// `a` comes strictly before `b` in lexicographic order.
pub open spec fn before7(a: Key7, b: Key7) -> bool {
    a.0 < b.0 || (a.0 == b.0 && (a.1 < b.1 || (a.1 == b.1 && (a.2 < b.2 || (a.2 == b.2 && (a.3
        < b.3 || (a.3 == b.3 && (a.4 < b.4 || (a.4 == b.4 && (a.5 < b.5 || (a.5 == b.5 && a.6
        < b.6)))))))))))
}

/// The result of a comparison in which `lt` says that the left side comes
/// first and `gt` that the right side does.
pub open spec fn verdict(lt: bool, gt: bool) -> Ordering {
    if lt {
        Ordering::Less
    } else if gt {
        Ordering::Greater
    } else {
        Ordering::Equal
    }
}

impl Event {
    /// The key that orders logged events: the time, then the indices in the
    /// order of the fields, a vertex event counting as zero where it has
    /// none.
    pub open spec fn key(self) -> Key5 {
        match self {
            Event::VertexEvent { time, merge_from, merge_to } => (
                time as int,
                merge_from as int,
                merge_to as int,
                0,
                0,
            ),
            Event::EdgeEvent { time, split_from, split_into, split_to_left, split_to_right } => (
                time as int,
                split_from as int,
                split_into as int,
                split_to_left as int,
                split_to_right as int,
            ),
        }
    }

    /// The time at which the event fired.
    pub open spec fn time(self) -> i64 {
        match self {
            Event::VertexEvent { time, .. } => time,
            Event::EdgeEvent { time, .. } => time,
        }
    }

    /// Returns the time at which the event fired.
    pub fn unwrap_time(&self) -> (r: i64)
        ensures
            r == self.time(),
    {
        match self {
            Event::VertexEvent { time, .. } => *time,
            Event::EdgeEvent { time, .. } => *time,
        }
    }

    /// Returns the numbers of the key.
    fn parts(&self) -> (r: (i64, usize, usize, usize, usize))
        ensures
            (r.0 as int, r.1 as int, r.2 as int, r.3 as int, r.4 as int) == self.key(),
    {
        match self {
            Event::VertexEvent { time, merge_from, merge_to } => (*time, *merge_from, *merge_to, 0, 0),
            Event::EdgeEvent { time, split_from, split_into, split_to_left, split_to_right } => (
                *time,
                *split_from,
                *split_into,
                *split_to_left,
                *split_to_right,
            ),
        }
    }
}

impl PartialOrdSpecImpl for Event {
    open spec fn obeys_partial_cmp_spec() -> bool {
        true
    }

    open spec fn partial_cmp_spec(&self, other: &Event) -> Option<Ordering> {
        Some(verdict(before5(self.key(), other.key()), before5(other.key(), self.key())))
    }
}

impl PartialOrd for Event {
    fn partial_cmp(&self, other: &Self) -> (r: Option<Ordering>) {
        let x = self.parts();
        let y = other.parts();
        if x.0 != y.0 {
            Some(if x.0 < y.0 { Ordering::Less } else { Ordering::Greater })
        } else if x.1 != y.1 {
            Some(if x.1 < y.1 { Ordering::Less } else { Ordering::Greater })
        } else if x.2 != y.2 {
            Some(if x.2 < y.2 { Ordering::Less } else { Ordering::Greater })
        } else if x.3 != y.3 {
            Some(if x.3 < y.3 { Ordering::Less } else { Ordering::Greater })
        } else if x.4 != y.4 {
            Some(if x.4 < y.4 { Ordering::Less } else { Ordering::Greater })
        } else {
            Some(Ordering::Equal)
        }
    }
}

/// The key of a point of the plane: one integer for each coordinate.
#[derive(Clone, Copy, Debug, PartialEq, Eq, Hash, Structural)]
pub struct Location {
    pub x: i64,
    pub y: i64,
}

/// An event that the simulation has scheduled and not yet fired.
///
/// Its `time`, `tie_break` and `location` are keys: integers that order as
/// the quantities they stand for do. Quantities that are to count as equal
/// have one key.
#[derive(Clone, Copy, Debug, PartialEq, Eq, Hash, Structural)]
pub enum Timeline {
    /// The vertices in the neighbouring slots `left_vertex` and
    /// `right_vertex`, which held the vertex records `left_real` and
    /// `right_real` when the event was scheduled, meet at `location`.
    ShrinkEvent {
        time: i64,
        location: Location,
        left_vertex: IndexType,
        right_vertex: IndexType,
        left_real: usize,
        right_real: usize,
        tie_break: i64,
    },
    /// The vertex in slot `anchor_vertex`, which held the vertex record
    /// `anchor_real` when the event was scheduled, strikes an edge at
    /// `location`.
    SplitEvent { time: i64, location: Location, anchor_vertex: IndexType, anchor_real: usize },
}

impl Timeline {
    /// The key that orders scheduled events: the time; then the kind, a
    /// split before a shrink; then the tie-break distance, which is zero for
    /// a split; then the location; then the vertex records involved.
    pub open spec fn key(self) -> Key7 {
        match self {
            Timeline::ShrinkEvent { time, location, left_real, right_real, tie_break, .. } => (
                time as int,
                1,
                tie_break as int,
                location.x as int,
                location.y as int,
                left_real as int,
                right_real as int,
            ),
            Timeline::SplitEvent { time, location, anchor_real, .. } => (
                time as int,
                0,
                0,
                location.x as int,
                location.y as int,
                anchor_real as int,
                anchor_real as int,
            ),
        }
    }

    /// The time for which the event is scheduled.
    pub open spec fn time(self) -> i64 {
        match self {
            Timeline::ShrinkEvent { time, .. } => time,
            Timeline::SplitEvent { time, .. } => time,
        }
    }

    /// The place at which the event is to happen.
    pub open spec fn location(self) -> Location {
        match self {
            Timeline::ShrinkEvent { location, .. } => location,
            Timeline::SplitEvent { location, .. } => location,
        }
    }

    /// Returns the numbers of the key.
    fn parts(&self) -> (r: (i64, u8, i64, i64, i64, usize, usize))
        ensures
            (r.0 as int, r.1 as int, r.2 as int, r.3 as int, r.4 as int, r.5 as int, r.6 as int)
                == self.key(),
    {
        match self {
            Timeline::ShrinkEvent { time, location, left_real, right_real, tie_break, .. } => (
                *time,
                1,
                *tie_break,
                location.x,
                location.y,
                *left_real,
                *right_real,
            ),
            Timeline::SplitEvent { time, location, anchor_real, .. } => (
                *time,
                0,
                0,
                location.x,
                location.y,
                *anchor_real,
                *anchor_real,
            ),
        }
    }
}

impl Prioritized for Timeline {
    /// `self` is due strictly before `other`: its key comes first.
    open spec fn precedes(self, other: Timeline) -> bool {
        before7(self.key(), other.key())
    }

    fn is_before(&self, other: &Timeline) -> (r: bool) {
        let x = self.parts();
        let y = other.parts();
        if x.0 != y.0 {
            x.0 < y.0
        } else if x.1 != y.1 {
            x.1 < y.1
        } else if x.2 != y.2 {
            x.2 < y.2
        } else if x.3 != y.3 {
            x.3 < y.3
        } else if x.4 != y.4 {
            x.4 < y.4
        } else if x.5 != y.5 {
            x.5 < y.5
        } else {
            x.6 < y.6
        }
    }

    proof fn lemma_order(a: Timeline, b: Timeline, c: Timeline) {
    }
}

impl PartialOrdSpecImpl for Timeline {
    open spec fn obeys_partial_cmp_spec() -> bool {
        true
    }

    open spec fn partial_cmp_spec(&self, other: &Timeline) -> Option<Ordering> {
        Some(verdict(self.precedes(*other), other.precedes(*self)))
    }
}

impl PartialOrd for Timeline {
    fn partial_cmp(&self, other: &Self) -> (r: Option<Ordering>) {
        if self.is_before(other) {
            Some(Ordering::Less)
        } else if other.is_before(self) {
            Some(Ordering::Greater)
        } else {
            Some(Ordering::Equal)
        }
    }
}

/// Of two scheduled events exactly one precedes the other, unless their
/// keys are the same, and then neither does.
pub proof fn lemma_timeline_order_total(a: Timeline, b: Timeline)
    ensures
        a.precedes(b) || b.precedes(a) || a.key() == b.key(),
        !(a.precedes(b) && b.precedes(a)),
        a.key() == b.key() ==> !a.precedes(b) && !b.precedes(a),
{
}

/// The order of scheduled events is transitive, also through events that
/// are due at the same moment.
pub proof fn lemma_timeline_order_transitive(a: Timeline, b: Timeline, c: Timeline)
    ensures
        a.precedes(b) && b.precedes(c) ==> a.precedes(c),
        !b.precedes(a) && !c.precedes(b) ==> !c.precedes(a),
{
}

/// An earlier time comes first whatever the rest of the key; at one and the
/// same time a split comes before a shrink.
pub proof fn lemma_timeline_order_time_then_kind(a: Timeline, b: Timeline)
    ensures
        a.time() < b.time() ==> a.precedes(b),
        a.time() == b.time() && a is SplitEvent && b is ShrinkEvent ==> a.precedes(b),
{
}

/// The order of logged events is a strict total order on their keys.
pub proof fn lemma_event_order(a: Event, b: Event, c: Event)
    ensures
        before5(a.key(), b.key()) || before5(b.key(), a.key()) || a.key() == b.key(),
        !(before5(a.key(), b.key()) && before5(b.key(), a.key())),
        before5(a.key(), b.key()) && before5(b.key(), c.key()) ==> before5(a.key(), c.key()),
        a.time() < b.time() ==> before5(a.key(), b.key()),
{
}

} // verus!
