//! A pathfinding engine over discrete spatial structures: unweighted
//! breadth-first search over an explicit directed graph, and weighted
//! best-first (A*) search over a bounded 2D grid with per-cell
//! traversal cost.

pub mod astar;
pub mod bookkeeping;
pub mod graph;
pub mod grid;

pub use astar::SearchError;
pub use bookkeeping::VertexMap;
pub use bookkeeping::VertexSet;
pub use graph::Edge;
pub use graph::Vertex;
pub use graph::Graph;
pub use graph::GraphNavigation;
pub use grid::Location;
pub use grid::WeighterGrid;
