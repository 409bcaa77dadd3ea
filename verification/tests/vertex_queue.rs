use geo_buf::vertex_queue::{IndexType, Node, VertexQueue};

fn p(i: usize) -> IndexType {
    IndexType::PointerIndex(i)
}

fn r(i: usize) -> IndexType {
    IndexType::RealIndex(i)
}

fn slots(walk: &[(usize, IndexType, usize)]) -> Vec<usize> {
    walk.iter().map(|v| v.1.get_index()).collect()
}

#[test]
fn new_queue_is_empty() {
    let q = VertexQueue::new();
    assert!(q.content.is_empty());
    assert!(q.iter().is_empty());
}

#[test]
fn get_index_reads_both_modes() {
    assert_eq!(p(7).get_index(), 7);
    assert_eq!(r(9).get_index(), 9);
    assert_ne!(p(7), r(7));
}

#[test]
fn init_links_each_loop_round() {
    let q = VertexQueue::init(&vec![vec![0, 1, 2, 3], vec![4, 5, 6]]);
    assert_eq!(q.content.len(), 7);
    assert_eq!(q.rv(p(3)), p(0));
    assert_eq!(q.lv(p(0)), p(3));
    assert_eq!(q.rv(p(1)), p(2));
    assert_eq!(q.lv(p(2)), p(1));
    assert_eq!(q.rv(p(6)), p(4));
    assert_eq!(q.lv(p(4)), p(6));
    assert_eq!(q.get_real_index(p(5)), 5);
    assert!(q.content.iter().all(|n| !n.done));
}

#[test]
fn init_keeps_the_given_vertex_records() {
    let q = VertexQueue::init(&vec![vec![10, 20, 30]]);
    assert_eq!(
        q.content,
        vec![
            Node { index: 10, left: 2, right: 1, done: false },
            Node { index: 20, left: 0, right: 2, done: false },
            Node { index: 30, left: 1, right: 0, done: false },
        ]
    );
    assert_eq!(q.get_real_index(p(1)), 20);
    assert_eq!(q.get_real_index(r(1)), 1);
}

#[test]
fn init_with_a_loop_of_one_links_it_to_itself() {
    let q = VertexQueue::init(&vec![vec![], vec![5]]);
    assert_eq!(q.content, vec![Node { index: 5, left: 0, right: 0, done: false }]);
    assert_eq!(q.iter(), vec![(0, p(0), 5)]);
}

#[test]
fn iter_walks_loop_after_loop_from_the_least_slot() {
    let q = VertexQueue::init(&vec![vec![0, 1, 2, 3], vec![4, 5, 6]]);
    assert_eq!(
        q.iter(),
        vec![
            (0, p(0), 0),
            (0, p(1), 1),
            (0, p(2), 2),
            (0, p(3), 3),
            (4, p(4), 4),
            (4, p(5), 5),
            (4, p(6), 6),
        ]
    );
}

#[test]
fn remove_and_set_unlinks_and_renames_the_right_neighbour() {
    let mut q = VertexQueue::init(&vec![vec![0, 1, 2, 3]]);
    let survivor = q.remove_and_set(p(1), r(7));
    assert_eq!(survivor, p(2));
    assert!(q.content[1].done);
    assert_eq!(q.get_real_index(p(2)), 7);
    assert_eq!(q.rv(p(0)), p(2));
    assert_eq!(q.lv(p(2)), p(0));
    assert_eq!(q.iter(), vec![(0, p(0), 0), (0, p(2), 7), (0, p(3), 3)]);
}

#[test]
fn remove_and_set_leaves_one_active_slot_fewer() {
    let mut q = VertexQueue::init(&vec![vec![0, 1, 2, 3], vec![4, 5, 6]]);
    let before = q.iter().len();
    q.remove_and_set(p(5), r(9));
    assert_eq!(q.iter().len() + 1, before);
    assert_eq!(q.content.len(), 7);
}

#[test]
fn split_and_set_cuts_one_loop_into_two() {
    let mut q = VertexQueue::init(&vec![vec![0, 1, 2, 3, 4, 5]]);
    let (left, right) = q.split_and_set(p(0), p(3), r(10), r(11));
    assert_eq!((left, right), (p(0), p(6)));
    assert_eq!(q.content.len(), 7);
    assert_eq!(q.rv(p(0)), p(4));
    assert_eq!(q.lv(p(4)), p(0));
    assert_eq!(q.lv(p(0)), p(5));
    assert_eq!(q.rv(p(3)), p(6));
    assert_eq!(q.lv(p(6)), p(3));
    assert_eq!(q.rv(p(6)), p(1));
    assert_eq!(q.lv(p(1)), p(6));
    assert_eq!(
        q.iter(),
        vec![
            (0, p(0), 10),
            (0, p(4), 4),
            (0, p(5), 5),
            (1, p(1), 1),
            (1, p(2), 2),
            (1, p(3), 3),
            (1, p(6), 11),
        ]
    );
}

#[test]
fn split_and_set_joins_two_loops_into_one() {
    let mut q = VertexQueue::init(&vec![vec![0, 1, 2, 3], vec![4, 5, 6, 7]]);
    let (left, right) = q.split_and_set(p(2), p(5), r(8), r(9));
    assert_eq!((left, right), (p(2), p(8)));
    let walk = q.iter();
    assert!(walk.iter().all(|v| v.0 == 0));
    assert_eq!(slots(&walk), vec![0, 1, 2, 6, 7, 4, 5, 8, 3]);
    assert_eq!(q.get_real_index(p(2)), 8);
    assert_eq!(q.get_real_index(p(8)), 9);
}

#[test]
fn split_and_set_adds_one_active_slot() {
    let mut q = VertexQueue::init(&vec![vec![0, 1, 2, 3, 4]]);
    let before = q.iter().len();
    q.split_and_set(p(3), p(0), r(5), r(6));
    assert_eq!(q.iter().len(), before + 1);
}

#[test]
fn split_next_to_the_anchor_leaves_it_alone_in_a_loop() {
    let mut q = VertexQueue::init(&vec![vec![0, 1, 2, 3]]);
    q.split_and_set(p(1), p(0), r(4), r(5));
    assert_eq!(q.rv(p(1)), p(1));
    assert_eq!(q.lv(p(1)), p(1));
    assert_eq!(slots(&q.iter()), vec![0, 4, 2, 3, 1]);
}

#[test]
fn cleanup_keeps_pointer_indices() {
    let mut q = VertexQueue::init(&vec![vec![0, 1, 2, 3]]);
    q.remove_and_set(p(1), r(7));
    let content = q.content.clone();
    assert_eq!(q.live, vec![0, 1, 2, 3]);
    q.cleanup();
    assert_eq!(q.live, vec![0, 2, 3]);
    assert_eq!(q.content, content);
    assert_eq!(q.get_real_index(p(2)), 7);
    assert_eq!(q.iter(), vec![(0, p(0), 0), (0, p(2), 7), (0, p(3), 3)]);
}

#[test]
fn every_active_slot_is_visited_once() {
    let mut q = VertexQueue::init(&vec![vec![0, 1, 2, 3, 4, 5], vec![6, 7, 8]]);
    q.split_and_set(p(0), p(3), r(9), r(10));
    q.remove_and_set(p(7), r(11));
    q.cleanup();
    let mut seen = slots(&q.iter());
    seen.sort();
    let active: Vec<usize> = (0..q.content.len()).filter(|i| !q.content[*i].done).collect();
    assert_eq!(seen, active);
}

#[test]
fn left_and_right_are_inverse_on_active_slots() {
    let mut q = VertexQueue::init(&vec![vec![0, 1, 2, 3, 4, 5], vec![6, 7, 8]]);
    q.split_and_set(p(4), p(7), r(9), r(10));
    q.remove_and_set(p(2), r(11));
    for i in 0..q.content.len() {
        if !q.content[i].done {
            assert_eq!(q.lv(q.rv(p(i))), p(i));
            assert_eq!(q.rv(q.lv(p(i))), p(i));
            assert!(!q.content[q.rv(p(i)).get_index()].done);
        }
    }
}

#[test]
fn clone_is_a_snapshot() {
    let mut q = VertexQueue::init(&vec![vec![0, 1, 2]]);
    let snapshot = q.clone();
    q.remove_and_set(p(0), r(3));
    assert_eq!(snapshot.iter(), vec![(0, p(0), 0), (0, p(1), 1), (0, p(2), 2)]);
    assert_eq!(q.iter(), vec![(1, p(1), 3), (1, p(2), 2)]);
}

#[test]
fn steps_to_the_right_lead_back() {
    let mut q = VertexQueue::init(&vec![vec![0, 1, 2, 3, 4, 5], vec![6, 7, 8], vec![9]]);
    q.split_and_set(p(4), p(7), r(10), r(11));
    q.remove_and_set(p(2), r(12));
    let slots = q.content.len();
    for start in 0..slots {
        if q.content[start].done {
            continue;
        }
        let mut at = q.rv(p(start));
        let mut steps = 1;
        while at != p(start) {
            assert!(steps < slots);
            at = q.rv(at);
            steps += 1;
        }
    }
}
