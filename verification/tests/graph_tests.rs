use grid_navigation::{Edge, Graph, GraphNavigation, Vertex, VertexMap, VertexSet};

fn sample_graph() -> Graph {
    let vertices = vec![
        Vertex::new(0, 0),
        Vertex::new(0, 1),
        Vertex::from((1, 0)),
        (1, 1).into(),
    ];
    let edges = vec![
        Edge { from: (0, 0).into(), to: (0, 1).into() },
        Edge { from: (0, 1).into(), to: (1, 1).into() },
        Edge { from: Vertex::new(1, 1), to: Vertex::new(1, 0) },
    ];
    Graph::new(vertices, edges)
}

#[test]
fn vertex_identity_is_value_based() {
    assert_eq!(Vertex::new(3, 4), Vertex::from((3, 4)));
    assert_ne!(Vertex::new(3, 4), Vertex::new(4, 3));
    let e1 = Edge { from: Vertex::new(0, 0), to: Vertex::new(0, 1) };
    let e2 = Edge { from: Vertex::new(0, 0), to: Vertex::new(0, 1) };
    let e3 = Edge { from: Vertex::new(0, 1), to: Vertex::new(0, 0) };
    assert_eq!(e1, e2);
    assert_ne!(e1, e3);
}

#[test]
fn graph_new_drops_duplicates() {
    let vertices = vec![Vertex::new(0, 0), Vertex::new(0, 0), Vertex::new(0, 1)];
    let edges = vec![
        Edge { from: Vertex::new(0, 0), to: Vertex::new(0, 1) },
        Edge { from: Vertex::new(0, 0), to: Vertex::new(0, 1) },
    ];
    let g = Graph::new(vertices, edges);
    assert_eq!(g.vertices.len(), 2);
    assert_eq!(g.edges.len(), 1);
}

#[test]
fn candidates_at_origin_never_underflow() {
    let g = sample_graph();
    let cands = g.get_valid_edges(Vertex::new(0, 0));
    assert_eq!(cands.len(), 2);
    assert!(cands.contains(&Vertex::new(0, 1)));
    assert!(cands.contains(&Vertex::new(1, 0)));
}

#[test]
fn candidates_away_from_origin_number_four() {
    let g = sample_graph();
    let cands = g.get_valid_edges(Vertex::new(2, 3));
    assert_eq!(cands.len(), 4);
    assert!(cands.contains(&Vertex::new(2, 4)));
    assert!(cands.contains(&Vertex::new(3, 3)));
    assert!(cands.contains(&Vertex::new(1, 3)));
    assert!(cands.contains(&Vertex::new(2, 2)));
}

#[test]
fn neighbors_at_origin_are_edge_backed_only() {
    let g = sample_graph();
    let neighs = g.neighbors(Vertex::new(0, 0));
    assert_eq!(neighs, vec![Vertex::new(0, 1)]);
}

#[test]
fn neighbors_respect_edge_direction() {
    let g = sample_graph();
    // (0, 1) -> (0, 0) is not an edge, only (0, 0) -> (0, 1) is
    let neighs = g.neighbors(Vertex::new(0, 1));
    assert_eq!(neighs, vec![Vertex::new(1, 1)]);
}

#[test]
fn bfs_finds_the_recorded_route() {
    let g = sample_graph();
    let path = g.bfs(Vertex::new(0, 0), Vertex::new(1, 1));
    assert_eq!(
        path,
        Some(vec![Vertex::new(0, 0), Vertex::new(0, 1), Vertex::new(1, 1)])
    );
}

#[test]
fn bfs_takes_three_hops_when_no_direct_edge_exists() {
    let g = sample_graph();
    let path = g.bfs(Vertex::new(0, 0), Vertex::new(1, 0));
    assert_eq!(
        path,
        Some(vec![
            Vertex::new(0, 0),
            Vertex::new(0, 1),
            Vertex::new(1, 1),
            Vertex::new(1, 0),
        ])
    );
}

#[test]
fn bfs_reports_unreachable_goal() {
    // (0, 0) is isolated: no edge enters it
    let g = sample_graph();
    assert_eq!(g.bfs(Vertex::new(0, 1), Vertex::new(0, 0)), None);
}

#[test]
fn bfs_with_no_edges_at_all() {
    let g = Graph::new(vec![Vertex::new(0, 0), Vertex::new(1, 0)], vec![]);
    assert_eq!(g.bfs(Vertex::new(0, 0), Vertex::new(1, 0)), None);
}

#[test]
fn bfs_start_equals_goal() {
    let g = sample_graph();
    let path = g.bfs(Vertex::new(0, 0), Vertex::new(0, 0));
    assert_eq!(path, Some(vec![Vertex::new(0, 0)]));
}

#[test]
fn backtrace_includes_start_and_goal() {
    let g = sample_graph();
    let mut came_from = VertexMap::new();
    came_from.insert(Vertex::new(0, 1), Vertex::new(0, 0));
    let path = g.backtrace(&came_from, Vertex::new(0, 0), Vertex::new(0, 1));
    assert_eq!(path, vec![Vertex::new(0, 0), Vertex::new(0, 1)]);
}

#[test]
fn backtrace_twice_yields_identical_paths() {
    let g = sample_graph();
    let mut came_from = VertexMap::new();
    came_from.insert(Vertex::new(0, 1), Vertex::new(0, 0));
    came_from.insert(Vertex::new(1, 1), Vertex::new(0, 1));
    let first = g.backtrace(&came_from, Vertex::new(0, 0), Vertex::new(1, 1));
    let second = g.backtrace(&came_from, Vertex::new(0, 0), Vertex::new(1, 1));
    assert_eq!(first, second);
    assert_eq!(
        first,
        vec![Vertex::new(0, 0), Vertex::new(0, 1), Vertex::new(1, 1)]
    );
}

#[test]
fn backtrace_with_no_recorded_chain_is_empty() {
    let g = sample_graph();
    let came_from = VertexMap::new();
    let path = g.backtrace(&came_from, Vertex::new(0, 0), Vertex::new(5, 5));
    assert!(path.is_empty());
}

#[test]
fn backtrace_on_a_cyclic_map_terminates_empty() {
    let g = sample_graph();
    let mut came_from = VertexMap::new();
    came_from.insert(Vertex::new(2, 2), Vertex::new(2, 3));
    came_from.insert(Vertex::new(2, 3), Vertex::new(2, 2));
    let path = g.backtrace(&came_from, Vertex::new(0, 0), Vertex::new(2, 2));
    assert!(path.is_empty());
}

#[test]
fn bfs_prefers_the_shorter_of_two_routes() {
    // two routes join (0, 0) to (0, 2): a two-edge one along the top
    // row and a four-edge detour through the second row
    let vertices = vec![
        Vertex::new(0, 0),
        Vertex::new(0, 1),
        Vertex::new(0, 2),
        Vertex::new(1, 0),
        Vertex::new(1, 1),
        Vertex::new(1, 2),
    ];
    let edges = vec![
        Edge { from: Vertex::new(0, 0), to: Vertex::new(0, 1) },
        Edge { from: Vertex::new(0, 1), to: Vertex::new(0, 2) },
        Edge { from: Vertex::new(0, 0), to: Vertex::new(1, 0) },
        Edge { from: Vertex::new(1, 0), to: Vertex::new(1, 1) },
        Edge { from: Vertex::new(1, 1), to: Vertex::new(1, 2) },
        Edge { from: Vertex::new(1, 2), to: Vertex::new(0, 2) },
    ];
    let g = Graph::new(vertices, edges);
    let path = g.bfs(Vertex::new(0, 0), Vertex::new(0, 2)).unwrap();
    assert_eq!(path.len(), 3);
    assert_eq!(
        path,
        vec![Vertex::new(0, 0), Vertex::new(0, 1), Vertex::new(0, 2)]
    );
}

#[test]
fn bookkeeping_containers_track_membership() {
    let mut s = VertexSet::new();
    assert!(!s.contains(Vertex::new(1, 2)));
    s.insert(Vertex::new(1, 2));
    s.insert(Vertex::new(1, 2));
    s.insert(Vertex::new(2, 2));
    assert!(s.contains(Vertex::new(1, 2)));
    assert_eq!(s.len(), 2);

    let mut m = VertexMap::new();
    assert_eq!(m.len(), 0);
    m.insert(Vertex::new(0, 1), Vertex::new(0, 0));
    assert_eq!(m.get(Vertex::new(0, 1)), Some(Vertex::new(0, 0)));
    assert_eq!(m.get(Vertex::new(5, 5)), None);
    assert!(m.contains_key(Vertex::new(0, 1)));
    assert_eq!(m.len(), 1);
}
