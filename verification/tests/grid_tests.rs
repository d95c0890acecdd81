use grid_navigation::{Location, SearchError, WeighterGrid};

#[test]
fn cost_defaults_to_one_unit_everywhere() {
    let g = WeighterGrid::new(5, 5);
    for x in 0..5 {
        for y in 0..5 {
            assert_eq!(g.cost(Location::new(0, 0), Location::new(x, y)), 1);
        }
    }
}

#[test]
fn cost_override_applies_to_one_cell_only() {
    let mut g = WeighterGrid::new(3, 3);
    g.set_cost(Location::new(1, 2), 7);
    assert_eq!(g.cost(Location::new(0, 0), Location::new(1, 2)), 7);
    assert_eq!(g.cost(Location::new(0, 0), Location::new(2, 1)), 1);
    assert_eq!(g.cost(Location::new(0, 0), Location::new(0, 0)), 1);
}

#[test]
fn heuristic_is_symmetric_and_zero_on_equal_points() {
    let g = WeighterGrid::new(10, 10);
    let a = Location::new(2, 7);
    let b = Location::new(5, 1);
    assert_eq!(g.heuristic(a, b), g.heuristic(b, a));
    assert_eq!(g.heuristic(a, b), 9);
    assert_eq!(g.heuristic(a, a), 0);
    assert_eq!(g.heuristic(b, b), 0);
}

#[test]
fn grid_neighbors_at_origin_never_underflow() {
    let g = WeighterGrid::new(5, 5);
    let neighs = g.neighbors(Location::new(0, 0));
    assert_eq!(neighs.len(), 2);
    assert!(neighs.contains(&Location::new(0, 1)));
    assert!(neighs.contains(&Location::new(1, 0)));
}

#[test]
fn grid_neighbors_clip_to_bounds() {
    let g = WeighterGrid::new(3, 3);
    let neighs = g.neighbors(Location::new(2, 2));
    assert_eq!(neighs.len(), 2);
    assert!(neighs.contains(&Location::new(1, 2)));
    assert!(neighs.contains(&Location::new(2, 1)));
    let inner = g.neighbors(Location::new(1, 1));
    assert_eq!(inner.len(), 4);
}

#[test]
fn grid_of_one_cell_has_no_neighbors() {
    let g = WeighterGrid::new(1, 1);
    assert!(g.neighbors(Location::new(0, 0)).is_empty());
}

#[test]
fn a_star_finds_a_two_step_path() {
    let g = WeighterGrid::new(5, 5);
    let path = g.a_star_search(Location::new(0, 0), Location::new(1, 1)).unwrap();
    assert_eq!(path.len(), 3);
    assert_eq!(path[0], Location::new(0, 0));
    assert_eq!(path[2], Location::new(1, 1));
    assert!(path[1] == Location::new(0, 1) || path[1] == Location::new(1, 0));
    assert_eq!(g.path_cost(&path), Some(2));
}

#[test]
fn a_star_start_equals_goal() {
    let g = WeighterGrid::new(4, 4);
    let path = g.a_star_search(Location::new(2, 2), Location::new(2, 2)).unwrap();
    assert_eq!(path, vec![Location::new(2, 2)]);
    assert_eq!(g.path_cost(&path), Some(0));
}

#[test]
fn a_star_rejects_out_of_bounds_endpoints() {
    let g = WeighterGrid::new(3, 3);
    assert_eq!(
        g.a_star_search(Location::new(3, 0), Location::new(0, 0)),
        Err(SearchError::OutOfBounds)
    );
    assert_eq!(
        g.a_star_search(Location::new(0, 0), Location::new(0, 9)),
        Err(SearchError::OutOfBounds)
    );
    let empty = WeighterGrid::new(0, 0);
    assert_eq!(
        empty.a_star_search(Location::new(0, 0), Location::new(0, 0)),
        Err(SearchError::OutOfBounds)
    );
}

#[test]
fn a_star_routes_around_an_expensive_cell() {
    let mut g = WeighterGrid::new(2, 2);
    g.set_cost(Location::new(0, 1), 10);
    let path = g.a_star_search(Location::new(0, 0), Location::new(1, 1)).unwrap();
    assert_eq!(
        path,
        vec![Location::new(0, 0), Location::new(1, 0), Location::new(1, 1)]
    );
    assert_eq!(g.path_cost(&path), Some(2));
}

#[test]
fn a_star_matches_shortest_edge_count_on_uniform_grid() {
    let g = WeighterGrid::new(6, 6);
    let start = Location::new(0, 3);
    let goal = Location::new(4, 0);
    let path = g.a_star_search(start, goal).unwrap();
    // on a uniform unit-cost grid the optimal total cost is the
    // Manhattan distance, here 7, which means 8 locations
    assert_eq!(path.len(), 8);
    assert_eq!(g.path_cost(&path), Some(7));
}

#[test]
fn path_cost_sums_entered_cells() {
    let mut g = WeighterGrid::new(2, 2);
    g.set_cost(Location::new(0, 1), 5);
    let path = vec![Location::new(0, 0), Location::new(0, 1), Location::new(1, 1)];
    assert_eq!(g.path_cost(&path), Some(6));
    assert_eq!(g.path_cost(&vec![]), Some(0));
    assert_eq!(g.path_cost(&vec![Location::new(0, 1)]), Some(0));
}
