use geo_buf::event::{Event, Location, Timeline};
use geo_buf::priority_queue::{Prioritized, PriorityQueue};
use geo_buf::vertex_queue::IndexType;
use std::cmp::Ordering;

fn shrink(time: i64, tie_break: i64, x: i64, y: i64, l: usize, r: usize) -> Timeline {
    Timeline::ShrinkEvent {
        time,
        location: Location { x, y },
        left_vertex: IndexType::PointerIndex(l),
        right_vertex: IndexType::PointerIndex(r),
        left_real: l,
        right_real: r,
        tie_break,
    }
}

fn split(time: i64, x: i64, y: i64, a: usize) -> Timeline {
    Timeline::SplitEvent {
        time,
        location: Location { x, y },
        anchor_vertex: IndexType::PointerIndex(a),
        anchor_real: a,
    }
}

fn drain(pq: &mut PriorityQueue<Timeline>) -> Vec<Timeline> {
    let mut out = Vec::new();
    while let Some(x) = pq.pop() {
        out.push(x);
    }
    out
}

#[test]
fn new_heap_is_empty() {
    let mut pq: PriorityQueue<Timeline> = PriorityQueue::new();
    assert!(pq.is_empty());
    assert_eq!(pq.len(), 0);
    assert_eq!(pq.peek(), None);
    assert_eq!(pq.pop(), None);
}

#[test]
fn pops_in_order_of_time() {
    let mut pq: PriorityQueue<Timeline> = PriorityQueue::new();
    for t in [5, 1, 4, 2, 8, 3, 7, 6, 0] {
        pq.insert(shrink(t, 0, 0, 0, 0, 1));
    }
    assert_eq!(pq.len(), 9);
    let times: Vec<i64> = drain(&mut pq)
        .iter()
        .map(|x| match x {
            Timeline::ShrinkEvent { time, .. } => *time,
            Timeline::SplitEvent { time, .. } => *time,
        })
        .collect();
    assert_eq!(times, vec![0, 1, 2, 3, 4, 5, 6, 7, 8]);
    assert!(pq.is_empty());
}

#[test]
fn peek_shows_what_pop_takes() {
    let mut pq: PriorityQueue<Timeline> = PriorityQueue::new();
    pq.insert(shrink(3, 0, 0, 0, 0, 1));
    pq.insert(split(2, 0, 0, 4));
    pq.insert(shrink(9, 0, 0, 0, 2, 3));
    assert_eq!(pq.peek(), Some(split(2, 0, 0, 4)));
    assert_eq!(pq.len(), 3);
    assert_eq!(pq.pop(), Some(split(2, 0, 0, 4)));
    assert_eq!(pq.len(), 2);
    assert_eq!(pq.peek(), Some(shrink(3, 0, 0, 0, 0, 1)));
}

#[test]
fn split_comes_before_shrink_at_the_same_time() {
    let mut pq: PriorityQueue<Timeline> = PriorityQueue::new();
    pq.insert(shrink(7, 0, -5, -5, 0, 1));
    pq.insert(split(7, 100, 100, 9));
    assert_eq!(drain(&mut pq), vec![split(7, 100, 100, 9), shrink(7, 0, -5, -5, 0, 1)]);
}

#[test]
fn ties_go_by_tie_break_then_location_then_records() {
    let mut pq: PriorityQueue<Timeline> = PriorityQueue::new();
    let a = shrink(7, 1, 9, 9, 8, 9);
    let b = shrink(7, 2, 0, 5, 0, 1);
    let c = shrink(7, 2, 1, 0, 0, 1);
    let d = shrink(7, 2, 1, 4, 0, 1);
    let e = shrink(7, 2, 1, 4, 0, 2);
    let f = shrink(7, 2, 1, 4, 1, 0);
    for x in [f, d, b, e, a, c] {
        pq.insert(x);
    }
    assert_eq!(drain(&mut pq), vec![a, b, c, d, e, f]);
}

#[test]
fn keeps_events_that_are_equal() {
    let mut pq: PriorityQueue<Timeline> = PriorityQueue::new();
    pq.insert(split(1, 2, 3, 4));
    pq.insert(split(1, 2, 3, 4));
    pq.insert(split(0, 2, 3, 4));
    assert_eq!(drain(&mut pq), vec![split(0, 2, 3, 4), split(1, 2, 3, 4), split(1, 2, 3, 4)]);
}

#[test]
fn timeline_order_is_the_order_of_the_keys() {
    assert_eq!(split(1, 0, 0, 0).partial_cmp(&shrink(1, 0, 0, 0, 0, 0)), Some(Ordering::Less));
    assert_eq!(shrink(1, 0, 0, 0, 0, 0).partial_cmp(&split(1, 0, 0, 0)), Some(Ordering::Greater));
    assert_eq!(shrink(0, 9, 9, 9, 9, 9).partial_cmp(&split(1, 0, 0, 0)), Some(Ordering::Less));
    assert_eq!(shrink(1, 2, 3, 4, 5, 6).partial_cmp(&shrink(1, 2, 3, 4, 5, 6)), Some(Ordering::Equal));
    assert!(shrink(1, 2, 3, 4, 5, 6) < shrink(1, 2, 3, 4, 5, 7));
    assert!(shrink(1, 2, 3, 4, 5, 6).is_before(&shrink(1, 2, 3, 5, 0, 0)));
    assert!(!shrink(1, 2, 3, 4, 5, 6).is_before(&shrink(1, 2, 3, 4, 5, 6)));
}

#[test]
fn timeline_order_ignores_the_slots() {
    let a = Timeline::SplitEvent {
        time: 1,
        location: Location { x: 0, y: 0 },
        anchor_vertex: IndexType::PointerIndex(3),
        anchor_real: 5,
    };
    let b = Timeline::SplitEvent {
        time: 1,
        location: Location { x: 0, y: 0 },
        anchor_vertex: IndexType::PointerIndex(4),
        anchor_real: 5,
    };
    assert_eq!(a.partial_cmp(&b), Some(Ordering::Equal));
    assert_ne!(a, b);
}

#[test]
fn event_order_is_time_then_indices() {
    let a = Event::VertexEvent { time: 1, merge_from: 2, merge_to: 3 };
    let b = Event::EdgeEvent {
        time: 1,
        split_from: 2,
        split_into: 3,
        split_to_left: 0,
        split_to_right: 0,
    };
    let c = Event::EdgeEvent {
        time: 1,
        split_from: 2,
        split_into: 3,
        split_to_left: 0,
        split_to_right: 1,
    };
    let d = Event::VertexEvent { time: 2, merge_from: 0, merge_to: 0 };
    assert_eq!(a.partial_cmp(&b), Some(Ordering::Equal));
    assert_ne!(a, b);
    assert_eq!(a.partial_cmp(&c), Some(Ordering::Less));
    assert_eq!(c.partial_cmp(&a), Some(Ordering::Greater));
    assert_eq!(c.partial_cmp(&d), Some(Ordering::Less));
    assert!(a < d);
    assert_eq!(a.unwrap_time(), 1);
    assert_eq!(c.unwrap_time(), 1);
    assert_eq!(d.unwrap_time(), 2);
}

#[test]
fn event_order_takes_negative_times() {
    let a = Event::VertexEvent { time: -3, merge_from: 9, merge_to: 9 };
    let b = Event::VertexEvent { time: 0, merge_from: 0, merge_to: 0 };
    assert_eq!(a.partial_cmp(&b), Some(Ordering::Less));
    assert_eq!(b.partial_cmp(&a), Some(Ordering::Greater));
}
