use geo_buf::event::{Event, Location, Timeline};
use geo_buf::schedule::{
    find_split_vertex, is_candidate_before, is_in_reach, is_reflex, shrink_pairs, split_edges,
    Meeting, Sighting,
};
use geo_buf::skeleton::{VertexType, NO_PARENT};
use geo_buf::vertex_queue::{IndexType, VertexQueue};
use geo_buf::wavefront::Wavefront;

fn p(i: usize) -> IndexType {
    IndexType::PointerIndex(i)
}

fn at(x: i64, y: i64) -> Location {
    Location { x, y }
}

fn meet(time: i64) -> Option<Meeting> {
    Some(Meeting { time, location: at(500, 500), tie_break: 1000 })
}

fn strike(time: i64, x: i64, y: i64) -> Option<Sighting> {
    Some(Sighting { time, location: at(x, y), from: -1, side: 1, to: 1 })
}

fn tree(parent: usize) -> VertexType {
    VertexType::Tree { parent }
}

#[test]
fn shrink_pairs_while_setting_up_is_the_right_pair() {
    let q = VertexQueue::init(&vec![vec![10, 11, 12, 13]]);
    assert_eq!(shrink_pairs(p(1), &q, true), vec![(p(1), p(2), 11, 12)]);
    assert_eq!(shrink_pairs(p(3), &q, true), vec![(p(3), p(0), 13, 10)]);
}

#[test]
fn shrink_pairs_later_are_both_pairs() {
    let q = VertexQueue::init(&vec![vec![10, 11, 12, 13]]);
    assert_eq!(shrink_pairs(p(1), &q, false), vec![(p(1), p(2), 11, 12), (p(0), p(1), 10, 11)]);
    assert_eq!(shrink_pairs(p(0), &q, false), vec![(p(0), p(1), 10, 11), (p(3), p(0), 13, 10)]);
}

#[test]
fn shrink_pairs_of_a_loop_of_two_are_none() {
    let q = VertexQueue::init(&vec![vec![0, 1], vec![2]]);
    assert!(shrink_pairs(p(0), &q, true).is_empty());
    assert!(shrink_pairs(p(1), &q, false).is_empty());
    assert!(shrink_pairs(p(2), &q, false).is_empty());
}

#[test]
fn split_edges_leave_out_what_touches_the_vertex() {
    let q = VertexQueue::init(&vec![vec![0, 1, 2, 3, 4, 5]]);
    assert_eq!(split_edges(p(0), &q), vec![(p(2), 2, 3), (p(3), 3, 4)]);
    assert_eq!(split_edges(p(3), &q), vec![(p(0), 0, 1), (p(5), 5, 0)]);
}

#[test]
fn split_edges_reach_into_other_loops() {
    let q = VertexQueue::init(&vec![vec![0, 1, 2], vec![3, 4, 5]]);
    assert_eq!(split_edges(p(1), &q), vec![(p(3), 3, 4), (p(4), 4, 5), (p(5), 5, 3)]);
}

#[test]
fn split_edges_of_a_square_are_none() {
    let q = VertexQueue::init(&vec![vec![0, 1, 2, 3]]);
    assert!(split_edges(p(2), &q).is_empty());
}

#[test]
fn find_split_vertex_sorts_while_setting_up() {
    let q = VertexQueue::init(&vec![vec![0, 1, 2, 3, 4, 5, 6]]);
    let sightings = vec![strike(9, 0, 0), None, strike(4, 7, 7)];
    assert_eq!(split_edges(p(0), &q), vec![(p(2), 2, 3), (p(3), 3, 4), (p(4), 4, 5)]);
    assert_eq!(
        find_split_vertex(p(0), &q, 1, &sightings, true, true),
        vec![(4, at(7, 7), p(4), 4), (9, at(0, 0), p(2), 2)]
    );
}

#[test]
fn find_split_vertex_keeps_the_first_once_moving() {
    let q = VertexQueue::init(&vec![vec![0, 1, 2, 3, 4, 5, 6]]);
    let sightings = vec![strike(9, 0, 0), strike(4, 8, 1), strike(4, 7, 7)];
    assert_eq!(find_split_vertex(p(0), &q, 1, &sightings, false, true), vec![(4, at(7, 7), p(4), 4)]);
    assert!(find_split_vertex(p(0), &q, 1, &vec![None, None, None], false, true).is_empty());
    assert!(find_split_vertex(p(0), &q, 1, &vec![], true, true).is_empty());
}

#[test]
fn find_split_vertex_breaks_ties_by_place_then_slot() {
    let q = VertexQueue::init(&vec![vec![0, 1, 2, 3, 4, 5, 6]]);
    let sightings = vec![strike(4, 1, 1), strike(4, 1, 1), strike(4, 1, 0)];
    assert_eq!(
        find_split_vertex(p(0), &q, 1, &sightings, true, true),
        vec![(4, at(1, 0), p(4), 4), (4, at(1, 1), p(2), 2), (4, at(1, 1), p(3), 3)]
    );
}

#[test]
fn new_wavefront_has_a_vertex_and_a_slot_for_each_corner() {
    let w = Wavefront::new(&vec![4, 3], true);
    assert_eq!(w.vertex_vector, vec![tree(NO_PARENT); 7]);
    assert_eq!(w.vertex_queue.content, w.initial_vertex_queue.content);
    assert_eq!(
        w.vertex_queue.iter().iter().map(|v| (v.0, v.2)).collect::<Vec<_>>(),
        vec![(0, 0), (0, 1), (0, 2), (0, 3), (4, 4), (4, 5), (4, 6)]
    );
    assert!(w.event_pq.is_empty());
    assert!(w.event_queue.is_empty());
}

#[test]
fn new_wavefront_without_loops_is_empty() {
    let mut w = Wavefront::new(&vec![], true);
    assert!(w.vertex_vector.is_empty());
    assert_eq!(w.next_event(), None);
    let s = w.finish();
    assert!(s.to_linestring().is_empty());
}

#[test]
fn make_shrink_event_schedules_the_pairs_that_meet() {
    let mut w = Wavefront::new(&vec![4], true);
    w.make_shrink_event(p(1), &vec![None, meet(7)], false);
    assert_eq!(w.event_pq.len(), 1);
    assert_eq!(
        w.event_pq.peek(),
        Some(Timeline::ShrinkEvent {
            time: 7,
            location: at(500, 500),
            left_vertex: p(0),
            right_vertex: p(1),
            left_real: 0,
            right_real: 1,
            tie_break: 1000,
        })
    );
    w.make_shrink_event(p(1), &vec![meet(3), meet(9)], true);
    assert_eq!(w.event_pq.len(), 2);
    w.make_shrink_event(p(2), &vec![], false);
    assert_eq!(w.event_pq.len(), 2);
}

#[test]
fn make_split_event_schedules_every_candidate() {
    let mut w = Wavefront::new(&vec![6], true);
    w.make_split_event(p(0), 1, &vec![strike(9, 1, 2), strike(4, 3, 4)]);
    assert_eq!(w.event_pq.len(), 2);
    assert_eq!(
        w.event_pq.pop(),
        Some(Timeline::SplitEvent {
            time: 4,
            location: at(3, 4),
            anchor_vertex: p(0),
            anchor_real: 0
        })
    );
    assert_eq!(
        w.event_pq.pop(),
        Some(Timeline::SplitEvent {
            time: 9,
            location: at(1, 2),
            anchor_vertex: p(0),
            anchor_real: 0
        })
    );
}

#[test]
fn is_stale_tells_done_slots_and_changed_occupants() {
    let mut w = Wavefront::new(&vec![5], true);
    let pair = |l: usize, r: usize| Timeline::ShrinkEvent {
        time: 1,
        location: at(0, 0),
        left_vertex: p(l),
        right_vertex: p(r),
        left_real: l,
        right_real: r,
        tie_break: 0,
    };
    let split = |a: usize, real: usize| Timeline::SplitEvent {
        time: 1,
        location: at(0, 0),
        anchor_vertex: p(a),
        anchor_real: real,
    };
    assert!(!w.is_stale(&pair(0, 1)));
    assert!(!w.is_stale(&split(3, 3)));
    assert!(w.is_stale(&split(3, 4)));
    assert!(w.is_stale(&split(9, 9)));
    assert!(w.is_stale(&Timeline::SplitEvent {
        time: 1,
        location: at(0, 0),
        anchor_vertex: IndexType::RealIndex(3),
        anchor_real: 3,
    }));
    w.make_shrink_event(p(0), &vec![meet(5)], true);
    let x = w.next_event().unwrap();
    assert_eq!(w.fire_shrink(&x), Some(p(1)));
    assert!(w.is_stale(&pair(0, 1)));
    assert!(w.is_stale(&pair(4, 0)));
    assert!(w.is_stale(&pair(1, 2)));
    assert!(w.is_stale(&split(1, 1)));
    assert!(!w.is_stale(&split(1, 5)));
    assert!(!w.is_stale(&pair(2, 3)));
}

#[test]
fn next_event_skips_what_has_been_overtaken() {
    let mut w = Wavefront::new(&vec![5], true);
    for cv in 0..5 {
        w.make_shrink_event(p(cv), &vec![meet(10 + cv as i64)], true);
    }
    let first = w.next_event().unwrap();
    assert!(matches!(first, Timeline::ShrinkEvent { time: 10, left_real: 0, right_real: 1, .. }));
    assert_eq!(w.fire_shrink(&first), Some(p(1)));
    let second = w.next_event().unwrap();
    assert!(matches!(second, Timeline::ShrinkEvent { time: 12, left_real: 2, right_real: 3, .. }));
    assert_eq!(w.event_pq.len(), 2);
}

#[test]
fn fire_shrink_records_the_new_vertex() {
    let mut w = Wavefront::new(&vec![4], true);
    w.make_shrink_event(p(2), &vec![meet(5)], true);
    let x = w.next_event().unwrap();
    assert_eq!(w.fire_shrink(&x), Some(p(3)));
    assert_eq!(
        w.vertex_vector,
        vec![tree(NO_PARENT), tree(NO_PARENT), tree(4), tree(4), tree(NO_PARENT)]
    );
    assert_eq!(w.event_queue, vec![Event::VertexEvent { time: 5, merge_from: 2, merge_to: 4 }]);
    assert_eq!(w.vertex_queue.iter(), vec![(0, p(0), 0), (0, p(1), 1), (0, p(3), 4)]);
    assert_eq!(w.initial_vertex_queue.iter().len(), 4);
}

#[test]
fn fire_shrink_that_ends_a_loop_makes_a_root() {
    let mut w = Wavefront::new(&vec![3], true);
    w.make_shrink_event(p(0), &vec![meet(5)], true);
    let x = w.next_event().unwrap();
    assert_eq!(w.fire_shrink(&x), None);
    assert_eq!(w.vertex_vector, vec![tree(3), tree(3), tree(3), VertexType::Root]);
    assert!(w.vertex_queue.iter().is_empty());
    assert_eq!(w.event_queue, vec![Event::VertexEvent { time: 5, merge_from: 0, merge_to: 3 }]);
}

#[test]
fn fire_split_cuts_the_struck_edge() {
    let mut w = Wavefront::new(&vec![5], true);
    let sightings = vec![strike(400, 2000, 0)];
    assert_eq!(split_edges(p(3), &w.vertex_queue), vec![(p(0), 0, 1)]);
    w.make_split_event(p(3), 1, &sightings);
    let x = w.next_event().unwrap();
    assert_eq!(w.fire_split(&x, 1, &sightings), Some((p(3), p(5))));
    assert_eq!(
        w.vertex_vector,
        vec![
            tree(NO_PARENT),
            tree(NO_PARENT),
            tree(NO_PARENT),
            tree(7),
            tree(NO_PARENT),
            tree(NO_PARENT),
            tree(NO_PARENT),
            VertexType::Split { anchor: 3, split_left: 5, split_right: 6 },
        ]
    );
    assert_eq!(
        w.event_queue,
        vec![Event::EdgeEvent {
            time: 400,
            split_from: 3,
            split_into: 0,
            split_to_left: 5,
            split_to_right: 6
        }]
    );
    let s = w.finish();
    let q = s.get_vertex_queue(450);
    assert_eq!(s.apply_vertex_queue(&q), vec![vec![0, 6, 4], vec![1, 2, 5]]);
    assert_eq!(s.apply_vertex_queue(&s.get_vertex_queue(399)), vec![vec![0, 1, 2, 3, 4]]);
}

#[test]
fn fire_split_drops_an_event_whose_place_has_moved() {
    let mut w = Wavefront::new(&vec![5], true);
    w.make_split_event(p(3), 1, &vec![strike(400, 2000, 0)]);
    let x = w.next_event().unwrap();
    assert_eq!(w.fire_split(&x, 1, &vec![strike(401, 2000, 0)]), None);
    assert_eq!(w.fire_split(&x, 1, &vec![strike(400, 2000, 1)]), None);
    assert_eq!(w.fire_split(&x, 1, &vec![None]), None);
    assert_eq!(w.fire_split(&x, 1, &vec![]), None);
    assert_eq!(w.vertex_vector.len(), 5);
    assert!(w.event_queue.is_empty());
    assert_eq!(w.vertex_queue.iter().len(), 5);
}

#[test]
fn fire_split_joins_two_loops() {
    let mut w = Wavefront::new(&vec![4, 4], true);
    let mut sightings = vec![None; 4];
    assert_eq!(
        split_edges(p(2), &w.vertex_queue),
        vec![(p(4), 4, 5), (p(5), 5, 6), (p(6), 6, 7), (p(7), 7, 4)]
    );
    sightings[1] = strike(500, 2500, 2500);
    w.make_split_event(p(2), 1, &sightings);
    let x = w.next_event().unwrap();
    assert_eq!(w.fire_split(&x, 1, &sightings), Some((p(2), p(8))));
    let s = w.finish();
    let q = s.get_vertex_queue(1000);
    assert_eq!(s.apply_vertex_queue(&q), vec![vec![0, 1, 8, 6, 7, 4, 5, 9, 3]]);
}

#[test]
fn a_square_runs_down_to_one_root() {
    let mut w = Wavefront::new(&vec![4], true);
    for cv in 0..4 {
        w.make_shrink_event(p(cv), &vec![meet(500)], true);
    }
    let first = w.next_event().unwrap();
    assert!(matches!(first, Timeline::ShrinkEvent { left_real: 0, right_real: 1, .. }));
    let survivor = w.fire_shrink(&first).unwrap();
    assert_eq!(survivor, p(1));
    w.make_shrink_event(survivor, &vec![None, None], false);
    let second = w.next_event().unwrap();
    assert!(matches!(second, Timeline::ShrinkEvent { left_real: 2, right_real: 3, .. }));
    assert_eq!(w.fire_shrink(&second), None);
    assert_eq!(w.next_event(), None);
    assert!(w.event_pq.is_empty());
    assert_eq!(
        w.vertex_vector,
        vec![tree(4), tree(4), tree(5), tree(5), tree(5), VertexType::Root]
    );
    let s = w.finish();
    assert_eq!(s.to_linestring(), vec![(0, 4), (4, 5), (1, 4), (2, 5), (3, 5)]);
    assert_eq!(s.apply_vertex_queue(&s.get_vertex_queue(200)), vec![vec![0, 1, 2, 3]]);
    assert_eq!(s.apply_vertex_queue(&s.get_vertex_queue(500)), Vec::<Vec<usize>>::new());
}

#[test]
fn bones_of_a_wavefront_at_rest_are_open() {
    let s = Wavefront::new(&vec![3], true).finish();
    assert_eq!(s.to_linestring(), vec![(0, NO_PARENT), (1, NO_PARENT), (2, NO_PARENT)]);
}

#[test]
fn bones_pass_through_a_split() {
    let mut w = Wavefront::new(&vec![5], true);
    let sightings = vec![strike(400, 2000, 0)];
    w.make_split_event(p(3), 1, &sightings);
    let x = w.next_event().unwrap();
    w.fire_split(&x, 1, &sightings);
    let s = w.finish();
    assert_eq!(
        s.to_linestring(),
        vec![
            (0, NO_PARENT),
            (1, NO_PARENT),
            (2, NO_PARENT),
            (3, 7),
            (5, NO_PARENT),
            (6, NO_PARENT),
            (4, NO_PARENT)
        ]
    );
}

#[test]
fn parents_are_made_after_their_children() {
    let mut w = Wavefront::new(&vec![6], true);
    let sightings = vec![strike(100, 0, 0), None];
    w.make_split_event(p(0), 1, &sightings);
    for cv in 0..6 {
        w.make_shrink_event(p(cv), &vec![meet(200 + cv as i64)], true);
    }
    while let Some(x) = w.next_event() {
        match x {
            Timeline::ShrinkEvent { .. } => {
                w.fire_shrink(&x);
            }
            Timeline::SplitEvent { .. } => {
                w.fire_split(&x, 1, &sightings);
            }
        }
    }
    for (i, v) in w.vertex_vector.iter().enumerate() {
        match *v {
            VertexType::Tree { parent } => {
                assert!(parent == NO_PARENT || (i < parent && parent < w.vertex_vector.len()));
                if parent != NO_PARENT {
                    if let VertexType::Split { anchor, .. } = w.vertex_vector[parent] {
                        assert_eq!(anchor, i);
                    }
                }
            }
            VertexType::Split { anchor, split_left, split_right } => {
                assert!(anchor < split_left && split_left + 1 == split_right && split_right + 1 == i);
                assert!(matches!(w.vertex_vector[split_left], VertexType::Tree { .. }));
                assert!(matches!(w.vertex_vector[split_right], VertexType::Tree { .. }));
            }
            VertexType::Root => {}
        }
    }
    let times: Vec<i64> = w.event_queue.iter().map(|e| e.unwrap_time()).collect();
    let mut sorted = times.clone();
    sorted.sort();
    assert_eq!(times, sorted);
}

#[test]
fn only_a_vertex_that_turns_away_can_strike() {
    assert!(is_reflex(true, 1));
    assert!(!is_reflex(true, 0));
    assert!(!is_reflex(true, -1));
    assert!(is_reflex(false, -1));
    assert!(!is_reflex(false, 0));
    assert!(!is_reflex(false, 1));
}

#[test]
fn a_strike_must_lie_before_the_edge_and_between_its_ends() {
    for from in [-1, 0, 1] {
        for to in [-1, 0, 1] {
            assert!(is_in_reach(true, true, from, 1, to));
            assert!(is_in_reach(true, true, from, 0, to));
            assert!(!is_in_reach(true, true, from, -1, to));
            assert!(is_in_reach(true, false, from, -1, to));
            assert!(is_in_reach(true, false, from, 0, to));
            assert!(!is_in_reach(true, false, from, 1, to));
            for side in [-1, 0, 1] {
                assert_eq!(
                    is_in_reach(false, true, from, side, to),
                    from == -1 && side >= 0 && to >= 0
                );
                assert_eq!(
                    is_in_reach(false, false, from, side, to),
                    from == 1 && side <= 0 && to <= 0
                );
            }
        }
    }
}

#[test]
fn find_split_vertex_of_a_vertex_that_is_not_reflex_is_empty() {
    let q = VertexQueue::init(&vec![vec![0, 1, 2, 3, 4, 5, 6]]);
    let sightings = vec![strike(9, 0, 0), strike(4, 8, 1), strike(4, 7, 7)];
    assert!(find_split_vertex(p(0), &q, 0, &sightings, true, true).is_empty());
    assert!(find_split_vertex(p(0), &q, -1, &sightings, true, true).is_empty());
    assert!(find_split_vertex(p(0), &q, 1, &sightings, true, false).is_empty());
    assert_eq!(find_split_vertex(p(0), &q, 1, &sightings, true, true).len(), 3);
}

#[test]
fn find_split_vertex_drops_what_is_out_of_reach() {
    let q = VertexQueue::init(&vec![vec![0, 1, 2, 3, 4, 5, 6]]);
    let seen = |time: i64, from: i32, side: i32, to: i32| {
        Some(Sighting { time, location: at(0, 0), from, side, to })
    };
    let sightings = vec![seen(1, 1, -1, -1), seen(2, -1, 0, 0), seen(3, 0, 1, 1)];
    assert_eq!(
        find_split_vertex(p(0), &q, 1, &sightings, true, true),
        vec![(2, at(0, 0), p(3), 3), (3, at(0, 0), p(4), 4)]
    );
    assert_eq!(
        find_split_vertex(p(0), &q, 1, &sightings, false, true),
        vec![(2, at(0, 0), p(3), 3)]
    );
    assert_eq!(
        find_split_vertex(p(0), &q, -1, &sightings, true, false),
        vec![(1, at(0, 0), p(2), 2), (2, at(0, 0), p(3), 3)]
    );
    assert_eq!(
        find_split_vertex(p(0), &q, -1, &sightings, false, false),
        vec![(1, at(0, 0), p(2), 2)]
    );
}

#[test]
fn a_vertex_that_is_not_reflex_schedules_no_split() {
    let mut w = Wavefront::new(&vec![6], false);
    assert!(!w.orient);
    w.make_split_event(p(0), 1, &vec![strike(9, 1, 2), strike(4, 3, 4)]);
    assert!(w.event_pq.is_empty());
    w.make_split_event(p(0), -1, &vec![strike(9, 1, 2), strike(4, 3, 4)]);
    assert!(w.event_pq.is_empty());
    let outward = Some(Sighting { time: 4, location: at(3, 4), from: 1, side: -1, to: -1 });
    w.make_split_event(p(0), -1, &vec![strike(9, 1, 2), outward]);
    assert_eq!(w.event_pq.len(), 1);
}

#[test]
fn fire_split_drops_an_event_whose_vertex_is_no_longer_reflex() {
    let mut w = Wavefront::new(&vec![5], true);
    let sightings = vec![strike(400, 2000, 0)];
    w.make_split_event(p(3), 1, &sightings);
    let x = w.next_event().unwrap();
    assert_eq!(w.fire_split(&x, 0, &sightings), None);
    let behind = vec![Some(Sighting { time: 400, location: at(2000, 0), from: 0, side: 1, to: 1 })];
    assert_eq!(w.fire_split(&x, 1, &behind), None);
    assert!(w.event_queue.is_empty());
    assert_eq!(w.fire_split(&x, 1, &sightings), Some((p(3), p(5))));
}

#[test]
fn candidates_go_by_time_place_slot_and_record() {
    let c = |time: i64, x: i64, y: i64, slot: IndexType, record: usize| (time, at(x, y), slot, record);
    assert!(is_candidate_before(&c(1, 9, 9, p(9), 9), &c(2, 0, 0, p(0), 0)));
    assert!(is_candidate_before(&c(1, 0, 9, p(9), 9), &c(1, 1, 0, p(0), 0)));
    assert!(is_candidate_before(&c(1, 1, 0, p(9), 9), &c(1, 1, 1, p(0), 0)));
    assert!(is_candidate_before(&c(1, 1, 1, IndexType::RealIndex(9), 9), &c(1, 1, 1, p(0), 0)));
    assert!(is_candidate_before(&c(1, 1, 1, p(3), 9), &c(1, 1, 1, p(4), 0)));
    assert!(is_candidate_before(&c(1, 1, 1, p(3), 5), &c(1, 1, 1, p(3), 6)));
    assert!(!is_candidate_before(&c(1, 1, 1, p(3), 5), &c(1, 1, 1, p(3), 5)));
    assert!(!is_candidate_before(&c(2, 0, 0, p(0), 0), &c(1, 9, 9, p(9), 9)));
}
