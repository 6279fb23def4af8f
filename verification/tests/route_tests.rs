use std::collections::BTreeMap;

use ai_isochrone::route::{backtrack_route, simplify_route};

#[test]
fn backtrack_reaches_start() {
    let start = (47.0, -3.0);
    let mid = (46.0, -2.0);
    let end = (45.0, -1.0);
    let mut parent = BTreeMap::new();
    let mut points = BTreeMap::new();
    points.insert((0, 0), start);
    points.insert((1, 1), mid);
    points.insert((2, 2), end);
    parent.insert((1, 1), (0, 0));
    parent.insert((2, 2), (1, 1));
    let route = backtrack_route(start, (2, 2), &parent, &points);
    assert_eq!(route.len(), 3);
    assert_eq!(route[0], start);
}

#[test]
fn backtrack_orders_from_start_to_arrival() {
    let mut parent = BTreeMap::new();
    let mut points = BTreeMap::new();
    points.insert((0, 0), 10u32);
    points.insert((1, 0), 11u32);
    points.insert((2, 0), 12u32);
    parent.insert((2, 0), (1, 0));
    parent.insert((1, 0), (0, 0));
    assert_eq!(backtrack_route(0u32, (2, 0), &parent, &points), vec![10, 11, 12]);
}

#[test]
fn backtrack_skips_cells_without_points() {
    let mut parent = BTreeMap::new();
    let mut points = BTreeMap::new();
    points.insert((0, 0), 'a');
    points.insert((2, 0), 'c');
    parent.insert((2, 0), (1, 0));
    parent.insert((1, 0), (0, 0));
    assert_eq!(backtrack_route('s', (2, 0), &parent, &points), vec!['a', 'c']);
}

#[test]
fn backtrack_from_unknown_cell_is_empty() {
    let parent: BTreeMap<(i32, i32), (i32, i32)> = BTreeMap::new();
    let points: BTreeMap<(i32, i32), u8> = BTreeMap::new();
    assert!(backtrack_route(0u8, (5, 5), &parent, &points).is_empty());
}

#[test]
fn backtrack_cycle_stops_at_link_budget() {
    let mut parent = BTreeMap::new();
    let mut points = BTreeMap::new();
    parent.insert((0, 0), (0, 0));
    points.insert((0, 0), 7u8);
    let route = backtrack_route(7u8, (0, 0), &parent, &points);
    assert_eq!(route.len(), 50_002);
    assert!(route.iter().all(|&p| p == 7));
}

#[test]
fn simplify_keeps_short_route() {
    let pts = vec![1, 2, 3];
    assert_eq!(simplify_route(&pts, 3), vec![1, 2, 3]);
    assert_eq!(simplify_route(&pts, 10), vec![1, 2, 3]);
    let empty: Vec<i32> = Vec::new();
    assert_eq!(simplify_route(&empty, 0), Vec::<i32>::new());
}

#[test]
fn simplify_keeps_every_nth_and_endpoints() {
    let pts: Vec<i32> = (0..10).collect();
    assert_eq!(simplify_route(&pts, 4), vec![0, 3, 6, 9]);
    let pts: Vec<i32> = (0..11).collect();
    assert_eq!(simplify_route(&pts, 4), vec![0, 3, 6, 9, 10]);
}

#[test]
fn simplify_to_one_point_keeps_both_ends() {
    let pts: Vec<i32> = (0..6).collect();
    assert_eq!(simplify_route(&pts, 1), vec![0, 5]);
    assert_eq!(simplify_route(&pts, 2), vec![0, 5]);
}
