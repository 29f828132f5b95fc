use library::aoj::bfs::solve;
use library::graph::bfs::{bfs, restore_path, BfsHandler};
use library::graph::recorder::PathRecorder;

#[test]
fn aoj_sample_distances() {
    // 1: 2 4, 2: 4, 3: -, 4: 3 (one-based)
    let g = vec![vec![1, 3], vec![3], vec![], vec![2]];
    assert_eq!(solve(g), vec![0, 1, 2, 1]);
}

#[test]
fn unreachable_vertices_get_minus_one() {
    let g = vec![vec![1], vec![0], vec![0], vec![]];
    assert_eq!(solve(g), vec![0, 1, -1, -1]);
}

#[test]
fn single_vertex_graph() {
    assert_eq!(solve(vec![vec![]]), vec![0]);
    assert_eq!(solve(vec![vec![0, 0]]), vec![0]);
}

#[test]
fn chain_with_shortcut() {
    let g = vec![vec![1, 4], vec![2], vec![3], vec![4], vec![]];
    assert_eq!(solve(g), vec![0, 1, 2, 3, 1]);
}

fn sample_graph() -> Vec<Vec<usize>> {
    vec![vec![1, 2], vec![3], vec![3, 4], vec![5], vec![5], vec![], vec![0]]
}

fn recorder(stop_at: Option<usize>) -> PathRecorder {
    PathRecorder::new(sample_graph(), stop_at, None).unwrap()
}

#[test]
fn bfs_visits_in_breadth_first_order() {
    let mut h = recorder(None);
    bfs(&mut h, vec![0]);
    assert_eq!(h.taken_order(), vec![0, 1, 2, 3, 4, 5]);
    let reached: Vec<bool> = (0..7).map(|v| h.is_reached(v)).collect();
    assert_eq!(reached, vec![true, true, true, true, true, true, false]);
}

#[test]
fn each_state_is_marked_once_with_its_origin() {
    let mut h = recorder(None);
    bfs(&mut h, vec![0, 0]);
    let parents: Vec<Option<usize>> = (0..7).map(|v| h.parent(&v)).collect();
    assert_eq!(parents, vec![None, Some(0), Some(0), Some(1), Some(2), Some(3), None]);
    assert_eq!(h.taken_order(), vec![0, 1, 2, 3, 4, 5]);
}

#[test]
fn several_starts_are_queued_in_reverse() {
    let mut h = recorder(None);
    bfs(&mut h, vec![3, 4]);
    assert_eq!(h.parent(&3), None);
    assert_eq!(h.parent(&4), None);
    assert_eq!(h.parent(&5), Some(4));
    assert_eq!(h.taken_order(), vec![4, 3, 5]);
}

#[test]
fn empty_start_list_does_nothing() {
    let mut h = recorder(None);
    bfs(&mut h, vec![]);
    assert!(h.taken_order().is_empty());
    assert!(!h.is_reached(0));
}

#[test]
fn stopping_ends_the_search() {
    let mut h = recorder(Some(2));
    bfs(&mut h, vec![0]);
    assert_eq!(h.taken_order(), vec![0, 1, 2]);
    assert!(h.is_reached(4));
    assert!(!h.is_reached(5));
}

#[test]
fn restore_path_follows_parents() {
    let mut h = recorder(None);
    bfs(&mut h, vec![0]);
    assert_eq!(restore_path(&h, 5), vec![0, 1, 3, 5]);
    assert_eq!(restore_path(&h, 4), vec![0, 2, 4]);
    assert_eq!(restore_path(&h, 0), vec![0]);
}

#[test]
fn restore_path_without_parent_is_target_alone() {
    let h = recorder(None);
    assert_eq!(restore_path(&h, 6), vec![6]);
    assert_eq!(restore_path(&h, 100), vec![100]);
}

#[test]
fn recorder_refuses_edges_outside_the_graph() {
    assert!(PathRecorder::new(vec![vec![1], vec![2]], None, None).is_none());
    assert!(PathRecorder::new(vec![vec![1], vec![0]], None, None).is_some());
}

#[test]
fn recorder_paths_follow_edges() {
    let mut h = recorder(None);
    bfs(&mut h, vec![0]);
    assert_eq!(h.path_to(5), vec![0, 1, 3, 5]);
    assert_eq!(h.path_to(4), vec![0, 2, 4]);
    assert_eq!(h.path_to(6), vec![6]);
    let mut h = recorder(None);
    bfs(&mut h, vec![3, 4]);
    assert_eq!(h.path_to(5), vec![4, 5]);
    assert_eq!(h.path_to(3), vec![3]);
}

#[test]
fn refusing_to_go_on_cuts_the_search() {
    let mut h = PathRecorder::new(sample_graph(), None, Some(2)).unwrap();
    bfs(&mut h, vec![0]);
    assert_eq!(h.taken_order(), vec![0, 1, 2, 3, 5]);
    assert!(!h.is_reached(4));
    assert_eq!(h.path_to(5), vec![0, 1, 3, 5]);
}

#[test]
fn aoj_sample_with_isolated_vertex() {
    let g = vec![vec![1, 3], vec![3], vec![], vec![2], vec![]];
    assert_eq!(solve(g), vec![0, 1, 2, 1, -1]);
}

#[test]
fn all_starts_visited_leaves_search_empty() {
    let mut h = recorder(None);
    bfs(&mut h, vec![0]);
    let before = h.taken_order();
    bfs(&mut h, vec![0, 1, 5]);
    assert_eq!(h.taken_order(), before);
}

#[test]
fn recorded_paths_are_shortest() {
    // the first edge out of 0 starts a long chain to 4, the second goes there at once
    let g = vec![vec![1, 4], vec![2], vec![3], vec![4], vec![], vec![3]];
    let mut h = PathRecorder::new(g, None, None).unwrap();
    bfs(&mut h, vec![0]);
    assert_eq!(h.path_to(4), vec![0, 4]);
    assert_eq!(h.path_to(3), vec![0, 1, 2, 3]);
    let mut h = PathRecorder::new(vec![vec![1, 4], vec![2], vec![3], vec![4], vec![], vec![3]], None, None).unwrap();
    bfs(&mut h, vec![0, 5]);
    assert_eq!(h.path_to(3), vec![5, 3]);
    assert_eq!(h.path_to(4), vec![0, 4]);
}
