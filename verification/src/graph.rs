//! The graph domain: vertices, directed edges, path reconstruction
//! over a came-from map, and breadth-first search over any type that
//! offers graph navigation.

use vstd::prelude::*;

use crate::bookkeeping::VertexMap;

verus! {

broadcast use {
    vstd::set::group_set_axioms,
    vstd::seq_lib::seq_to_set_is_finite,
    vstd::seq_lib::group_seq_properties,
};

/// A vertex of an explicit directed graph: a pair of non-negative
/// integer coordinates. Identity is value-based; two vertices are
/// equal iff both coordinates match.
#[derive(PartialEq, Eq, Structural, Clone, Copy, Debug, Hash)]
pub struct Vertex {
    pub x: usize,
    pub y: usize,
}

impl Vertex {
    pub fn new(x: usize, y: usize) -> (r: Self)
        ensures
            r == (Vertex { x, y }),
    {
        Vertex { x, y }
    }
}

impl From<(usize, usize)> for Vertex {
    fn from(tup: (usize, usize)) -> (r: Self) {
        Vertex { x: tup.0, y: tup.1 }
    }
}

impl vstd::std_specs::convert::FromSpecImpl<(usize, usize)> for Vertex {
    open spec fn obeys_from_spec() -> bool {
        true
    }

    open spec fn from_spec(tup: (usize, usize)) -> Vertex {
        Vertex { x: tup.0, y: tup.1 }
    }
}

/// A single directed connection between two vertices. Directional:
/// the presence of (a, b) does not imply (b, a).
#[derive(PartialEq, Eq, Structural, Clone, Copy, Debug, Hash)]
pub struct Edge {
    pub from: Vertex,
    pub to: Vertex,
}

/// The Manhattan distance between two coordinate pairs.
pub open spec fn manhattan_of(ax: int, ay: int, bx: int, by: int) -> int {
    let dx = if ax >= bx {
        ax - bx
    } else {
        bx - ax
    };
    let dy = if ay >= by {
        ay - by
    } else {
        by - ay
    };
    dx + dy
}

/// Two vertices are axis-aligned neighbors: they differ by exactly
/// one in exactly one coordinate.
pub open spec fn adjacent(a: Vertex, b: Vertex) -> bool {
    manhattan_of(a.x as int, a.y as int, b.x as int, b.y as int) == 1
}

/// A set that contains a path's first vertex and is closed under the
/// allowed steps contains the path's last vertex.
proof fn lemma_closed_set_confines(allowed: Set<(Vertex, Vertex)>, s: Set<Vertex>, q: Seq<Vertex>)
    requires
        q.len() >= 1,
        s.contains(q[0]),
        forall|i: int| 0 <= i < q.len() - 1 ==> allowed.contains((#[trigger] q[i], q[i + 1])),
        forall|v: Vertex, w: Vertex|
            s.contains(v) && #[trigger] allowed.contains((v, w)) ==> s.contains(w),
    ensures
        s.contains(q.last()),
    decreases q.len(),
{
    if q.len() > 1 {
        let shorter = q.drop_last();
        assert(shorter.last() == q[q.len() - 2]);
        lemma_closed_set_confines(allowed, s, shorter);
        assert(allowed.contains((q[q.len() - 2], q[q.len() - 1])));
    }
}

/// Whether a vertex still awaits expansion: it sits in the frontier
/// at or after the head cursor.
spec fn pending_in(f: Seq<Vertex>, head: int, v: Vertex) -> bool {
    exists|j: int| head <= j < f.len() && f[j] == v
}

/// Walking any path from the start, either some vertex of the path is
/// still pending at a depth no larger than its position, or the whole
/// path ends in an expanded vertex whose depth the path length bounds.
#[verifier::rlimit(50)]
proof fn lemma_path_lower_bound(
    allowed: Set<(Vertex, Vertex)>,
    visited: Set<Vertex>,
    f: Seq<Vertex>,
    head: int,
    depth: Map<Vertex, nat>,
    start: Vertex,
    q: Seq<Vertex>,
)
    requires
        q.len() >= 1,
        q[0] == start,
        visited.contains(start),
        depth[start] == 0,
        forall|i: int| 0 <= i < q.len() - 1 ==> allowed.contains((#[trigger] q[i], q[i + 1])),
        forall|v: Vertex, w: Vertex|
            visited.contains(v) && !pending_in(f, head, v) && #[trigger] allowed.contains((v, w))
                ==> visited.contains(w) && depth[w] <= depth[v] + 1,
    ensures
        (exists|t: int|
            0 <= t < q.len() && visited.contains(#[trigger] q[t]) && pending_in(f, head, q[t])
                && depth[q[t]] <= t) || (visited.contains(q.last()) && !pending_in(
            f,
            head,
            q.last(),
        ) && depth[q.last()] <= q.len() - 1),
    decreases q.len(),
{
    if q.len() == 1 {
        if pending_in(f, head, q[0]) {
            assert(0 <= 0 < q.len() && visited.contains(q[0]) && pending_in(f, head, q[0])
                && depth[q[0]] <= 0);
        }
    } else {
        let shorter = q.drop_last();
        assert forall|i: int|
            0 <= i < shorter.len() - 1 implies allowed.contains(
            (#[trigger] shorter[i], shorter[i + 1]),
        ) by {
            assert(shorter[i] == q[i]);
            assert(shorter[i + 1] == q[i + 1]);
        }
        lemma_path_lower_bound(allowed, visited, f, head, depth, start, shorter);
        if exists|t: int|
            0 <= t < shorter.len() && visited.contains(#[trigger] shorter[t]) && pending_in(
                f,
                head,
                shorter[t],
            ) && depth[shorter[t]] <= t {
            let t = choose|t: int|
                0 <= t < shorter.len() && visited.contains(#[trigger] shorter[t]) && pending_in(
                    f,
                    head,
                    shorter[t],
                ) && depth[shorter[t]] <= t;
            assert(q[t] == shorter[t]);
            assert(0 <= t < q.len() && visited.contains(q[t]) && pending_in(f, head, q[t])
                && depth[q[t]] <= t);
        } else {
            let u = shorter.last();
            assert(u == q[q.len() - 2]);
            assert(allowed.contains((q[q.len() - 2], q[q.len() - 1])));
            assert(visited.contains(q.last()) && depth[q.last()] <= depth[u] + 1);
            if pending_in(f, head, q.last()) {
                assert(0 <= q.len() - 1 < q.len() && visited.contains(q[q.len() - 1])
                    && pending_in(f, head, q[q.len() - 1]) && depth[q[q.len() - 1]] <= q.len()
                    - 1);
            }
        }
    }
}

/// The walk backward through a came-from map: from `cur`, repeatedly
/// look up the recorded predecessor, until `start` is met. The result
/// is ordered start first; `None` when the walk cannot reach `start`
/// within `fuel` lookups (the goal was never discovered, or the map
/// is cyclic).
pub open spec fn trace(m: Map<Vertex, Vertex>, start: Vertex, cur: Vertex, fuel: nat) -> Option<
    Seq<Vertex>,
>
    decreases fuel,
{
    if cur == start {
        Some(seq![start])
    } else if fuel == 0 {
        None
    } else if m.contains_key(cur) {
        match trace(m, start, m[cur], (fuel - 1) as nat) {
            Some(p) => Some(p.push(cur)),
            None => None,
        }
    } else {
        None
    }
}

/// What a successful walk yields: a chain from `start` to `cur` in
/// which every vertex follows its recorded predecessor.
pub proof fn lemma_trace_props(m: Map<Vertex, Vertex>, start: Vertex, cur: Vertex, fuel: nat)
    requires
        trace(m, start, cur, fuel) is Some,
    ensures
        ({
            let p = trace(m, start, cur, fuel).unwrap();
            &&& p.len() >= 1
            &&& p[0] == start
            &&& p.last() == cur
            &&& forall|i: int|
                0 <= i < p.len() - 1 ==> m.contains_key(#[trigger] p[i + 1]) && m[p[i + 1]] == p[i]
        }),
    decreases fuel,
{
    if cur == start {
    } else {
        let q = trace(m, start, m[cur], (fuel - 1) as nat).unwrap();
        lemma_trace_props(m, start, m[cur], (fuel - 1) as nat);
        let p = trace(m, start, cur, fuel).unwrap();
        assert(p == q.push(cur));
        assert forall|i: int|
            0 <= i < p.len() - 1 implies m.contains_key(#[trigger] p[i + 1]) && m[p[i + 1]] == p[i] by {
            if i < q.len() - 1 {
                assert(p[i + 1] == q[i + 1]);
                assert(p[i] == q[i]);
            } else {
                assert(p[i + 1] == cur);
                assert(p[i] == q.last());
            }
        }
    }
}

/// A walk that succeeds with some fuel succeeds, unchanged, with any
/// larger fuel.
pub proof fn lemma_trace_fuel_mono(
    m: Map<Vertex, Vertex>,
    start: Vertex,
    cur: Vertex,
    fuel1: nat,
    fuel2: nat,
)
    requires
        fuel1 <= fuel2,
        trace(m, start, cur, fuel1) is Some,
    ensures
        trace(m, start, cur, fuel2) == trace(m, start, cur, fuel1),
    decreases fuel1,
{
    if cur == start {
    } else {
        lemma_trace_fuel_mono(m, start, m[cur], (fuel1 - 1) as nat, (fuel2 - 1) as nat);
    }
}

/// Adding an entry for a fresh key disturbs no successful walk.
pub proof fn lemma_trace_insert(
    m: Map<Vertex, Vertex>,
    start: Vertex,
    cur: Vertex,
    fuel: nat,
    k: Vertex,
    v: Vertex,
)
    requires
        !m.contains_key(k),
        trace(m, start, cur, fuel) is Some,
    ensures
        trace(m.insert(k, v), start, cur, fuel) == trace(m, start, cur, fuel),
    decreases fuel,
{
    if cur == start {
    } else {
        assert(cur != k);
        lemma_trace_insert(m, start, m[cur], (fuel - 1) as nat, k, v);
    }
}

/// The reconstructed path for a came-from map: the walk from `end`
/// back to `start`, ordered start first, or the empty sequence when
/// no recorded chain joins them.
pub open spec fn backtrace_seq(m: Map<Vertex, Vertex>, start: Vertex, end: Vertex) -> Seq<Vertex> {
    match trace(m, start, end, m.dom().len()) {
        Some(p) => p,
        None => Seq::empty(),
    }
}

fn backtrace_rec(came_from: &VertexMap, start: Vertex, cur: Vertex, fuel: usize) -> (r: Option<
    Vec<Vertex>,
>)
    requires
        came_from.wf(),
    ensures
        match r {
            Some(p) => trace(came_from@, start, cur, fuel as nat) == Some(p@),
            None => trace(came_from@, start, cur, fuel as nat) is None,
        },
    decreases fuel,
{
    if cur == start {
        let mut p: Vec<Vertex> = Vec::new();
        p.push(start);
        proof {
            assert(p@ =~= seq![start]);
        }
        Some(p)
    } else if fuel == 0 {
        None
    } else {
        match came_from.get(cur) {
            None => None,
            Some(prev) => {
                match backtrace_rec(came_from, start, prev, fuel - 1) {
                    None => None,
                    Some(mut p) => {
                        p.push(cur);
                        Some(p)
                    },
                }
            },
        }
    }
}

/// The capability interface over graph-like types: which single steps
/// navigation may take, and the operations the shared breadth-first
/// search needs. `bfs` is provided once, against this interface.
pub trait GraphNavigation: Sized {
    /// Whether navigation may step from `from` to `to` in one move.
    spec fn nav_edge(&self, from: Vertex, to: Vertex) -> bool;

    /// A finite set holding every vertex a navigation step can enter.
    spec fn vertex_space(&self) -> Set<Vertex>;

    proof fn lemma_vertex_space(&self)
        ensures
            self.vertex_space().finite(),
            forall|a: Vertex, b: Vertex|
                #[trigger] self.nav_edge(a, b) ==> self.vertex_space().contains(b),
    ;

    /// The vertices navigation may enter from `vertex`, each once.
    fn neighbors(&self, vertex: Vertex) -> (r: Vec<Vertex>)
        ensures
            r@.no_duplicates(),
            forall|v: Vertex| #[trigger] r@.contains(v) <==> self.nav_edge(vertex, v),
    ;

    /// The candidate coordinates one axis-aligned step away from
    /// `vertex`, each once; never a coordinate outside the unsigned
    /// domain.
    fn get_valid_edges(&self, vertex: Vertex) -> (r: Vec<Vertex>)
        ensures
            r@.no_duplicates(),
            forall|v: Vertex| #[trigger] r@.contains(v) <==> adjacent(vertex, v),
    ;

    /// Path reconstruction: the walk backward from `end` through the
    /// recorded predecessors. The result is ordered start to end and
    /// includes both; it is empty when `end` has no recorded chain to
    /// `start`. The map is read, never consumed, so reconstruction
    /// can be repeated with the same outcome.
    fn backtrace(&self, came_from: &VertexMap, start: Vertex, end: Vertex) -> (r: Vec<Vertex>)
        requires
            came_from.wf(),
        ensures
            r@ == backtrace_seq(came_from@, start, end),
    ;

    /// Breadth-first search from `start`. When it returns a path, the
    /// path begins at `start`, ends at `goal`, every step is a
    /// navigation edge, and no path through the navigation relation
    /// joins the two in fewer steps: strict first-in first-out order
    /// makes the first discovery of the goal a shortest one. `None`
    /// is returned exactly when no such path exists at all: the
    /// frontier was exhausted without reaching `goal`.
    #[verifier::rlimit(100)]
    fn bfs(&self, start: Vertex, goal: Vertex) -> (r: Option<Vec<Vertex>>)
        ensures
            match r {
                Some(p) => {
                    &&& p@.len() >= 1
                    &&& p@[0] == start
                    &&& p@.last() == goal
                    &&& forall|i: int|
                        0 <= i < p@.len() - 1 ==> self.nav_edge(#[trigger] p@[i], p@[i + 1])
                    &&& forall|q: Seq<Vertex>|
                        (q.len() >= 1 && q[0] == start && #[trigger] q.last() == goal && (forall|
                            i: int,
                        |
                            0 <= i < q.len() - 1 ==> self.nav_edge(#[trigger] q[i], q[i + 1])))
                            ==> p@.len() <= q.len()
                },
                None => forall|q: Seq<Vertex>|
                    !(q.len() >= 1 && q[0] == start && #[trigger] q.last() == goal && (forall|
                        i: int,
                    |
                        0 <= i < q.len() - 1 ==> self.nav_edge(#[trigger] q[i], q[i + 1]))),
            },
    {
        let mut came_from = VertexMap::new();
        let mut visited = crate::bookkeeping::VertexSet::new();
        let mut frontier: Vec<Vertex> = Vec::new();
        let mut head: usize = 0;
        frontier.push(start);
        visited.insert(start);
        let ghost mut depth: Map<Vertex, nat> = Map::<Vertex, nat>::empty().insert(start, 0);
        proof {
            self.lemma_vertex_space();
            vstd::set_lib::lemma_len_subset(visited@, self.vertex_space().insert(start));
            assert(frontier@[0] == start);
            assert(depth.dom() =~= visited@);
        }
        loop
            invariant
                came_from.wf(),
                visited.wf(),
                came_from@.dom().finite(),
                visited@ == came_from@.dom().insert(start),
                head <= frontier@.len(),
                self.vertex_space().finite(),
                forall|a: Vertex, b: Vertex|
                    #[trigger] self.nav_edge(a, b) ==> self.vertex_space().contains(b),
                visited@.subset_of(self.vertex_space().insert(start)),
                visited@.len() <= self.vertex_space().len() + 1,
                forall|k: Vertex| #[trigger]
                    came_from@.contains_key(k) ==> self.nav_edge(came_from@[k], k),
                forall|k: Vertex| #[trigger]
                    came_from@.contains_key(k) ==> trace(
                        came_from@,
                        start,
                        k,
                        came_from@.dom().len(),
                    ) is Some && trace(came_from@, start, k, came_from@.dom().len()).unwrap().len()
                        == depth[k] + 1,
                forall|j: int|
                    0 <= j < frontier@.len() ==> frontier@[j] == start || came_from@.contains_key(
                        #[trigger] frontier@[j],
                    ),
                forall|j: int|
                    0 <= j < frontier@.len() ==> visited@.contains(#[trigger] frontier@[j]),
                forall|v: Vertex| #[trigger]
                    visited@.contains(v) ==> exists|j: int|
                        0 <= j < frontier@.len() && frontier@[j] == v,
                frontier@.no_duplicates(),
                depth.dom() == visited@,
                depth[start] == 0,
                forall|v: Vertex, w: Vertex|
                    visited@.contains(v) && !pending_in(frontier@, head as int, v)
                        && #[trigger] self.nav_edge(v, w) ==> visited@.contains(w) && depth[w]
                        <= depth[v] + 1,
                forall|i: int, j: int|
                    #![trigger frontier@[i], frontier@[j]]
                    0 <= i <= j < frontier@.len() ==> depth[frontier@[i]] <= depth[frontier@[j]],
                forall|j: int|
                    head <= j < frontier@.len() ==> depth[#[trigger] frontier@[j]] <= depth[frontier@[head as int]] + 1,
                visited@.contains(goal) ==> exists|j: int|
                    head <= j < frontier@.len() && frontier@[j] == goal,
            decreases 2 * (self.vertex_space().len() + 1 - visited@.len()) + (frontier@.len()
                - head),
        {
            if head >= frontier.len() {
                proof {
                    assert forall|q: Seq<Vertex>|
                        !(q.len() >= 1 && q[0] == start && #[trigger] q.last() == goal && (forall|
                        i: int,
                    |
                        0 <= i < q.len() - 1 ==> self.nav_edge(#[trigger] q[i], q[i + 1]))) by {
                        if q.len() >= 1 && q[0] == start && q.last() == goal && (forall|i: int|
                            0 <= i < q.len() - 1 ==> self.nav_edge(#[trigger] q[i], q[i + 1])) {
                            let allowed = Set::new(
                                |pr: (Vertex, Vertex)| self.nav_edge(pr.0, pr.1),
                            );
                            assert forall|i: int|
                                0 <= i < q.len() - 1 implies allowed.contains(
                                (#[trigger] q[i], q[i + 1]),
                            ) by {
                                assert(self.nav_edge(q[i], q[i + 1]));
                            }
                            assert forall|v: Vertex, w: Vertex|
                                visited@.contains(v) && #[trigger] allowed.contains(
                                (v, w),
                            ) implies visited@.contains(w) by {
                                assert(self.nav_edge(v, w));
                                assert(!pending_in(frontier@, head as int, v));
                            }
                            lemma_closed_set_confines(allowed, visited@, q);
                            assert(visited@.contains(goal));
                            let j = choose|j: int|
                                head <= j < frontier@.len() && frontier@[j] == goal;
                            assert(false);
                        }
                    }
                }
                return None;
            }
            let current = frontier[head];
            if current == goal {
                proof {
                    if current != start {
                        assert(came_from@.contains_key(current));
                    }
                    lemma_trace_props(came_from@, start, goal, came_from@.dom().len());
                }
                let path = self.backtrace(&came_from, start, goal);
                proof {
                    let p = path@;
                    assert forall|i: int|
                        0 <= i < p.len() - 1 implies self.nav_edge(#[trigger] p[i], p[i + 1]) by {
                        assert(came_from@.contains_key(p[i + 1]));
                        assert(came_from@[p[i + 1]] == p[i]);
                    }
                    assert(p.len() == depth[goal] + 1);
                    let allowed = Set::new(|pr: (Vertex, Vertex)| self.nav_edge(pr.0, pr.1));
                    assert forall|q: Seq<Vertex>|
                        (q.len() >= 1 && q[0] == start && #[trigger] q.last() == goal && (forall|
                            i: int,
                        |
                            0 <= i < q.len() - 1 ==> self.nav_edge(#[trigger] q[i], q[i + 1])))
                            implies p.len() <= q.len() by {
                        if q.len() >= 1 && q[0] == start && q.last() == goal && (forall|i: int|
                            0 <= i < q.len() - 1 ==> self.nav_edge(#[trigger] q[i], q[i + 1])) {
                            assert forall|i: int|
                                0 <= i < q.len() - 1 implies allowed.contains(
                                (#[trigger] q[i], q[i + 1]),
                            ) by {
                                assert(self.nav_edge(q[i], q[i + 1]));
                            }
                            assert forall|v: Vertex, w: Vertex|
                                visited@.contains(v) && !pending_in(frontier@, head as int, v)
                                    && #[trigger] allowed.contains((v, w)) implies visited@
                                .contains(w) && depth[w] <= depth[v] + 1 by {
                                assert(self.nav_edge(v, w));
                            }
                            lemma_path_lower_bound(
                                allowed,
                                visited@,
                                frontier@,
                                head as int,
                                depth,
                                start,
                                q,
                            );
                            assert(pending_in(frontier@, head as int, goal)) by {
                                assert((head as int) < frontier@.len());
                                assert(frontier@[head as int] == goal);
                            }
                            if exists|t: int|
                                0 <= t < q.len() && visited@.contains(#[trigger] q[t])
                                    && pending_in(frontier@, head as int, q[t]) && depth[q[t]]
                                    <= t {
                                let t = choose|t: int|
                                    0 <= t < q.len() && visited@.contains(#[trigger] q[t])
                                        && pending_in(frontier@, head as int, q[t]) && depth[q[t]]
                                        <= t;
                                let j = choose|j: int|
                                    head <= j < frontier@.len() && frontier@[j] == q[t];
                                assert(depth[frontier@[head as int]] <= depth[frontier@[j]]);
                                assert(depth[goal] <= depth[q[t]]);
                            } else {
                                assert(!pending_in(frontier@, head as int, q.last()));
                                assert(false);
                            }
                        }
                    }
                }
                return Some(path);
            }
            let ghost lvl = depth[current];
            proof {
                assert(frontier@[head as int] == current);
                assert forall|v: Vertex, w: Vertex|
                    visited@.contains(v) && v != current && !pending_in(
                        frontier@,
                        head as int + 1,
                        v,
                    ) && #[trigger] self.nav_edge(v, w) implies visited@.contains(w) && depth[w]
                    <= depth[v] + 1 by {
                    if pending_in(frontier@, head as int, v) {
                        let j = choose|j: int|
                            head <= j < frontier@.len() && frontier@[j] == v;
                        if j == head {
                            assert(v == current);
                        } else {
                            assert(head as int + 1 <= j < frontier@.len() && frontier@[j] == v);
                            assert(pending_in(frontier@, head as int + 1, v));
                        }
                        assert(false);
                    }
                }
                assert forall|j: int|
                    head as int + 1 <= j < frontier@.len() implies depth[#[trigger] frontier@[j]]
                    <= depth[frontier@[head as int + 1]] + 1 by {
                    assert(depth[frontier@[head as int]] <= depth[frontier@[head as int + 1]]);
                    assert(depth[frontier@[j]] <= depth[frontier@[head as int]] + 1);
                }
                if visited@.contains(goal) {
                    let j = choose|j: int| head <= j < frontier@.len() && frontier@[j] == goal;
                    assert(j != head);
                    assert(head as int + 1 <= j < frontier@.len() && frontier@[j] == goal);
                }
            }
            head = head + 1;
            let neighs = self.neighbors(current);
            proof {
                assert forall|j: int|
                    0 <= j < neighs@.len() implies self.nav_edge(
                    current,
                    #[trigger] neighs@[j],
                ) by {
                    assert(neighs@.contains(neighs@[j]));
                }
                assert(frontier@[head as int - 1] == current);
                assert forall|v: Vertex| #[trigger]
                    visited@.contains(v) implies depth[v] <= lvl + 1 by {
                    let j = choose|j: int| 0 <= j < frontier@.len() && frontier@[j] == v;
                    if j <= head as int - 1 {
                        assert(depth[frontier@[j]] <= depth[frontier@[head as int - 1]]);
                    } else {
                        assert(depth[frontier@[j]] <= depth[frontier@[head as int - 1]] + 1);
                    }
                }
            }
            let n_count = neighs.len();
            let ghost entry_measure = 2 * (self.vertex_space().len() + 1 - visited@.len()) + (
            frontier@.len() - head);
            let mut i: usize = 0;
            while i < n_count
                invariant
                    n_count == neighs@.len(),
                    0 <= i <= n_count,
                    came_from.wf(),
                    visited.wf(),
                    came_from@.dom().finite(),
                    visited@ == came_from@.dom().insert(start),
                    head <= frontier@.len(),
                    self.vertex_space().finite(),
                    forall|a: Vertex, b: Vertex|
                        #[trigger] self.nav_edge(a, b) ==> self.vertex_space().contains(b),
                    visited@.subset_of(self.vertex_space().insert(start)),
                    visited@.len() <= self.vertex_space().len() + 1,
                    current == start || came_from@.contains_key(current),
                    current != goal,
                    visited@.contains(current),
                    depth[current] == lvl,
                    head >= 1,
                    frontier@[head as int - 1] == current,
                    forall|j: int|
                        0 <= j < neighs@.len() ==> self.nav_edge(current, #[trigger] neighs@[j]),
                    forall|t: int| 0 <= t < i ==> visited@.contains(#[trigger] neighs@[t]),
                    forall|k: Vertex| #[trigger]
                        came_from@.contains_key(k) ==> self.nav_edge(came_from@[k], k),
                    forall|k: Vertex| #[trigger]
                        came_from@.contains_key(k) ==> trace(
                            came_from@,
                            start,
                            k,
                            came_from@.dom().len(),
                        ) is Some && trace(
                            came_from@,
                            start,
                            k,
                            came_from@.dom().len(),
                        ).unwrap().len() == depth[k] + 1,
                    forall|j: int|
                        0 <= j < frontier@.len() ==> frontier@[j] == start
                            || came_from@.contains_key(#[trigger] frontier@[j]),
                    forall|j: int|
                        0 <= j < frontier@.len() ==> visited@.contains(#[trigger] frontier@[j]),
                    forall|v: Vertex| #[trigger]
                        visited@.contains(v) ==> exists|j: int|
                            0 <= j < frontier@.len() && frontier@[j] == v,
                    frontier@.no_duplicates(),
                    depth.dom() == visited@,
                    depth[start] == 0,
                    forall|v: Vertex| #[trigger] visited@.contains(v) ==> depth[v] <= lvl + 1,
                    forall|v: Vertex, w: Vertex|
                        visited@.contains(v) && v != current && !pending_in(
                            frontier@,
                            head as int,
                            v,
                        ) && #[trigger] self.nav_edge(v, w) ==> visited@.contains(w) && depth[w]
                            <= depth[v] + 1,
                    forall|i2: int, j2: int|
                        #![trigger frontier@[i2], frontier@[j2]]
                        0 <= i2 <= j2 < frontier@.len() ==> depth[frontier@[i2]] <= depth[frontier@[j2]],
                    forall|j: int|
                        head <= j < frontier@.len() ==> depth[#[trigger] frontier@[j]] <= depth[frontier@[head as int]] + 1,
                    visited@.contains(goal) ==> exists|j: int|
                        head <= j < frontier@.len() && frontier@[j] == goal,
                    2 * (self.vertex_space().len() + 1 - visited@.len()) + (frontier@.len() - head)
                        <= entry_measure,
                decreases n_count - i,
            {
                let nb = neighs[i];
                if !visited.contains(nb) {
                    proof {
                        assert(nb != start);
                        assert(!came_from@.contains_key(nb));
                    }
                    let ghost m_old = came_from@;
                    let ghost f0 = frontier@;
                    let ghost vis0 = visited@;
                    let ghost depth0 = depth;
                    came_from.insert(nb, current);
                    proof {
                        depth = depth.insert(nb, (lvl + 1) as nat);
                        let m_new = came_from@;
                        let old_len = m_old.dom().len();
                        let new_len = m_new.dom().len();
                        assert(new_len == old_len + 1);
                        assert forall|k: Vertex| #[trigger]
                            m_new.contains_key(k) implies trace(m_new, start, k, new_len) is Some
                            && trace(m_new, start, k, new_len).unwrap().len() == depth[k] + 1 by {
                            if k == nb {
                                if current == start {
                                    assert(trace(m_new, start, current, old_len) == Some(
                                        seq![start],
                                    ));
                                } else {
                                    lemma_trace_insert(m_old, start, current, old_len, nb, current);
                                }
                                assert(m_new[nb] == current);
                                assert(trace(m_new, start, current, old_len) is Some);
                                assert(trace(m_new, start, current, old_len).unwrap().len() == lvl
                                    + 1);
                                assert(trace(m_new, start, nb, new_len) is Some);
                                assert(trace(m_new, start, nb, new_len).unwrap().len() == lvl + 2);
                                assert(depth[nb] == lvl + 1);
                            } else {
                                assert(m_old.contains_key(k));
                                lemma_trace_insert(m_old, start, k, old_len, nb, current);
                                lemma_trace_fuel_mono(m_new, start, k, old_len, new_len);
                                assert(depth[k] == depth0[k]);
                            }
                        }
                    }
                    visited.insert(nb);
                    frontier.push(nb);
                    proof {
                        vstd::set_lib::lemma_len_subset(
                            visited@,
                            self.vertex_space().insert(start),
                        );
                        let newpos = frontier@.len() - 1;
                        assert(frontier@[newpos] == nb);
                        assert(visited@ == vis0.insert(nb));
                        assert(depth.dom() =~= visited@);
                        assert forall|j: int| 0 <= j < f0.len() implies #[trigger] frontier@[j]
                            == f0[j] by {}
                        assert forall|j: int| 0 <= j < f0.len() implies f0[j] != nb by {
                            assert(vis0.contains(f0[j]));
                        }
                        assert(frontier@.no_duplicates());
                        assert forall|v: Vertex| #[trigger]
                            visited@.contains(v) implies exists|j: int|
                            0 <= j < frontier@.len() && frontier@[j] == v by {
                            if v == nb {
                                assert(0 <= newpos < frontier@.len() && frontier@[newpos] == v);
                            } else {
                                let j = choose|j: int| 0 <= j < f0.len() && f0[j] == v;
                                assert(0 <= j < frontier@.len() && frontier@[j] == v);
                            }
                        }
                        assert forall|v: Vertex| #[trigger]
                            visited@.contains(v) implies depth[v] <= lvl + 1 by {
                            if v != nb {
                                assert(vis0.contains(v));
                                assert(depth[v] == depth0[v]);
                            }
                        }
                        assert forall|v: Vertex, w: Vertex|
                            visited@.contains(v) && v != current && !pending_in(
                                frontier@,
                                head as int,
                                v,
                            ) && #[trigger] self.nav_edge(v, w) implies visited@.contains(w)
                            && depth[w] <= depth[v] + 1 by {
                            assert(v != nb) by {
                                if v == nb {
                                    assert(head <= newpos < frontier@.len() && frontier@[newpos]
                                        == v);
                                    assert(pending_in(frontier@, head as int, v));
                                }
                            }
                            assert(vis0.contains(v));
                            assert(!pending_in(f0, head as int, v)) by {
                                if pending_in(f0, head as int, v) {
                                    let j = choose|j: int|
                                        head <= j < f0.len() && f0[j] == v;
                                    assert(frontier@[j] == v);
                                    assert(pending_in(frontier@, head as int, v));
                                }
                            }
                            assert(vis0.contains(w) && depth0[w] <= depth0[v] + 1) by {
                                if w == nb {
                                    assert(vis0.contains(nb));
                                    assert(false);
                                }
                            }
                            assert(depth[w] == depth0[w]);
                            assert(depth[v] == depth0[v]);
                        }
                        assert forall|i2: int, j2: int|
                            #![trigger frontier@[i2], frontier@[j2]]
                            0 <= i2 <= j2 < frontier@.len() implies depth[frontier@[i2]] <= depth[frontier@[j2]] by {
                            if j2 == newpos {
                                if i2 < newpos {
                                    assert(frontier@[i2] == f0[i2]);
                                    assert(vis0.contains(f0[i2]));
                                    assert(depth[frontier@[i2]] == depth0[f0[i2]]);
                                    assert(depth0[f0[i2]] <= lvl + 1);
                                    assert(depth[frontier@[j2]] == lvl + 1);
                                }
                            } else {
                                assert(frontier@[i2] == f0[i2]);
                                assert(frontier@[j2] == f0[j2]);
                                assert(vis0.contains(f0[i2]));
                                assert(vis0.contains(f0[j2]));
                                assert(depth[frontier@[i2]] == depth0[f0[i2]]);
                                assert(depth[frontier@[j2]] == depth0[f0[j2]]);
                            }
                        }
                        assert forall|j: int|
                            head <= j < frontier@.len() implies depth[#[trigger] frontier@[j]]
                            <= depth[frontier@[head as int]] + 1 by {
                            if (head as int) < f0.len() {
                                assert(frontier@[head as int] == f0[head as int]);
                                assert(head as int - 1 < f0.len());
                                assert(depth0[f0[head as int - 1]] <= depth0[f0[head as int]]);
                                assert(depth[frontier@[head as int]] >= lvl) by {
                                    assert(f0[head as int - 1] == current);
                                }
                                if j == newpos {
                                    assert(depth[frontier@[j]] == lvl + 1);
                                } else {
                                    assert(frontier@[j] == f0[j]);
                                    assert(depth0[f0[j]] <= depth0[f0[head as int]] + 1);
                                }
                            } else {
                                assert(head as int == newpos);
                                assert(j == newpos);
                            }
                        }
                        if visited@.contains(goal) {
                            if goal == nb {
                                assert(head <= newpos < frontier@.len() && frontier@[newpos]
                                    == goal);
                            } else {
                                let j = choose|j: int|
                                    head <= j < f0.len() && f0[j] == goal;
                                assert(frontier@[j] == goal);
                                assert(head <= j < frontier@.len() && frontier@[j] == goal);
                            }
                        }
                    }
                }
                i = i + 1;
            }
            proof {
                assert forall|v: Vertex, w: Vertex|
                    visited@.contains(v) && !pending_in(frontier@, head as int, v)
                        && #[trigger] self.nav_edge(v, w) implies visited@.contains(w) && depth[w]
                    <= depth[v] + 1 by {
                    if v == current {
                        assert(neighs@.contains(w));
                        let t = choose|t: int| 0 <= t < neighs@.len() && neighs@[t] == w;
                        assert(visited@.contains(neighs@[t]));
                        assert(depth[w] <= lvl + 1);
                    }
                }
            }
        }
    }

}

fn vec_contains_vertex(v: &Vec<Vertex>, x: Vertex) -> (r: bool)
    ensures
        r == v@.contains(x),
{
    let n = v.len();
    let mut i: usize = 0;
    while i < n
        invariant
            n == v@.len(),
            0 <= i <= n,
            forall|j: int| 0 <= j < i ==> v@[j] != x,
        decreases n - i,
    {
        if v[i] == x {
            return true;
        }
        i += 1;
    }
    false
}

fn vec_contains_edge(v: &Vec<Edge>, x: Edge) -> (r: bool)
    ensures
        r == v@.contains(x),
{
    let n = v.len();
    let mut i: usize = 0;
    while i < n
        invariant
            n == v@.len(),
            0 <= i <= n,
            forall|j: int| 0 <= j < i ==> v@[j] != x,
        decreases n - i,
    {
        if v[i] == x {
            return true;
        }
        i += 1;
    }
    false
}

fn dedup_vertices(src: Vec<Vertex>) -> (r: Vec<Vertex>)
    ensures
        r@.no_duplicates(),
        forall|v: Vertex| #[trigger] r@.contains(v) <==> src@.contains(v),
{
    let n = src.len();
    let mut r: Vec<Vertex> = Vec::new();
    let mut i: usize = 0;
    while i < n
        invariant
            n == src@.len(),
            0 <= i <= n,
            r@.no_duplicates(),
            forall|v: Vertex| #[trigger] r@.contains(v) <==> src@.subrange(0, i as int).contains(v),
        decreases n - i,
    {
        let x = src[i];
        if !vec_contains_vertex(&r, x) {
            r.push(x);
        }
        proof {
            assert(src@.subrange(0, i as int).push(src@[i as int]) =~= src@.subrange(
                0,
                i as int + 1,
            ));
        }
        i += 1;
    }
    proof {
        assert(src@.subrange(0, n as int) =~= src@);
    }
    r
}

fn dedup_edges(src: Vec<Edge>) -> (r: Vec<Edge>)
    ensures
        r@.no_duplicates(),
        forall|e: Edge| #[trigger] r@.contains(e) <==> src@.contains(e),
{
    let n = src.len();
    let mut r: Vec<Edge> = Vec::new();
    let mut i: usize = 0;
    while i < n
        invariant
            n == src@.len(),
            0 <= i <= n,
            r@.no_duplicates(),
            forall|e: Edge| #[trigger] r@.contains(e) <==> src@.subrange(0, i as int).contains(e),
        decreases n - i,
    {
        let x = src[i];
        if !vec_contains_edge(&r, x) {
            r.push(x);
        }
        proof {
            assert(src@.subrange(0, i as int).push(src@[i as int]) =~= src@.subrange(
                0,
                i as int + 1,
            ));
        }
        i += 1;
    }
    proof {
        assert(src@.subrange(0, n as int) =~= src@);
    }
    r
}

/// An explicit directed graph: a duplicate-free collection of
/// vertices and a duplicate-free collection of directed edges.
pub struct Graph {
    pub vertices: Vec<Vertex>,
    pub edges: Vec<Edge>,
}

impl Graph {
    /// Builds the graph, keeping each vertex and each directed edge
    /// once, whatever the inputs repeat.
    pub fn new(vertices: Vec<Vertex>, edges: Vec<Edge>) -> (r: Self)
        ensures
            r.vertices@.no_duplicates(),
            r.edges@.no_duplicates(),
            forall|v: Vertex| #[trigger] r.vertices@.contains(v) <==> vertices@.contains(v),
            forall|e: Edge| #[trigger] r.edges@.contains(e) <==> edges@.contains(e),
    {
        Graph { vertices: dedup_vertices(vertices), edges: dedup_edges(edges) }
    }

    /// Whether the directed edge (from, to) is present.
    pub fn has_edge(&self, from: Vertex, to: Vertex) -> (r: bool)
        ensures
            r == self.edges@.contains(Edge { from, to }),
    {
        vec_contains_edge(&self.edges, Edge { from, to })
    }
}

impl GraphNavigation for Graph {
    /// A step is allowed between axis-aligned neighbors joined by a
    /// recorded directed edge.
    open spec fn nav_edge(&self, from: Vertex, to: Vertex) -> bool {
        adjacent(from, to) && self.edges@.contains(Edge { from, to })
    }

    open spec fn vertex_space(&self) -> Set<Vertex> {
        self.edges@.map_values(|e: Edge| e.to).to_set()
    }

    proof fn lemma_vertex_space(&self) {
        let targets = self.edges@.map_values(|e: Edge| e.to);
        assert forall|a: Vertex, b: Vertex| #[trigger]
            self.nav_edge(a, b) implies self.vertex_space().contains(b) by {
            let e = Edge { from: a, to: b };
            let i = choose|i: int| 0 <= i < self.edges@.len() && self.edges@[i] == e;
            assert(targets[i] == b);
            assert(targets.contains(b));
        }
    }

    fn neighbors(&self, vertex: Vertex) -> (r: Vec<Vertex>) {
        let cands = self.get_valid_edges(vertex);
        let n = cands.len();
        let mut r: Vec<Vertex> = Vec::new();
        let mut i: usize = 0;
        while i < n
            invariant
                n == cands@.len(),
                0 <= i <= n,
                cands@.no_duplicates(),
                forall|v: Vertex| #[trigger] cands@.contains(v) <==> adjacent(vertex, v),
                r@.no_duplicates(),
                forall|v: Vertex| #[trigger]
                    r@.contains(v) <==> cands@.subrange(0, i as int).contains(v)
                        && self.edges@.contains(Edge { from: vertex, to: v }),
            decreases n - i,
        {
            let c = cands[i];
            if self.has_edge(vertex, c) {
                proof {
                    if r@.contains(c) {
                        let j = choose|j: int| 0 <= j < i && cands@.subrange(0, i as int)[j] == c;
                        assert(cands@[j] == cands@[i as int]);
                        assert(false);
                    }
                }
                r.push(c);
            }
            proof {
                assert(cands@.subrange(0, i as int).push(cands@[i as int]) =~= cands@.subrange(
                    0,
                    i as int + 1,
                ));
            }
            i += 1;
        }
        proof {
            assert(cands@.subrange(0, n as int) =~= cands@);
            assert forall|v: Vertex| #[trigger] r@.contains(v) <==> self.nav_edge(vertex, v) by {
                if r@.contains(v) {
                    assert(cands@.contains(v));
                }
                if self.nav_edge(vertex, v) {
                    assert(cands@.contains(v));
                }
            }
        }
        r
    }

    fn get_valid_edges(&self, vertex: Vertex) -> (r: Vec<Vertex>) {
        let x = vertex.x;
        let y = vertex.y;
        let mut r: Vec<Vertex> = Vec::new();
        if y < usize::MAX {
            r.push(Vertex { x, y: y + 1 });
        }
        if x < usize::MAX {
            r.push(Vertex { x: x + 1, y });
        }
        if x > 0 {
            r.push(Vertex { x: x - 1, y });
        }
        if y > 0 {
            r.push(Vertex { x, y: y - 1 });
        }
        proof {
            assert forall|v: Vertex| #[trigger] r@.contains(v) <==> adjacent(vertex, v) by {
                if adjacent(vertex, v) {
                    if v.x == x && v.y == y + 1 {
                        assert(r@.contains(v));
                    } else if v.x == x + 1 && v.y == y {
                        assert(r@.contains(v));
                    } else if x > 0 && v.x == x - 1 && v.y == y {
                        assert(r@.contains(v));
                    } else {
                        assert(y > 0 && v.x == x && v.y == y - 1);
                        assert(r@.contains(v));
                    }
                }
            }
        }
        r
    }

    fn backtrace(&self, came_from: &VertexMap, start: Vertex, end: Vertex) -> (r: Vec<Vertex>) {
        let fuel = came_from.len();
        match backtrace_rec(came_from, start, end, fuel) {
            Some(p) => p,
            None => {
                let r: Vec<Vertex> = Vec::new();
                proof {
                    assert(r@ =~= Seq::<Vertex>::empty());
                }
                r
            },
        }
    }
}

} // verus!
