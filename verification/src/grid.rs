//! The grid domain: locations, the weighted grid with its per-cell
//! traversal cost, the Manhattan heuristic, and bounded neighbor
//! generation.

use vstd::prelude::*;

use crate::graph::manhattan_of;

verus! {

broadcast use {
    vstd::set::group_set_axioms,
    vstd::seq_lib::group_seq_properties,
};

/// A cell of a bounded 2D grid: a (row, column) pair with value-based
/// identity.
#[derive(PartialEq, Eq, Structural, Clone, Copy, Debug, Hash)]
pub struct Location {
    pub x: usize,
    pub y: usize,
}

impl Location {
    pub fn new(x: usize, y: usize) -> (r: Self)
        ensures
            r == (Location { x, y }),
    {
        Location { x, y }
    }
}

impl From<(usize, usize)> for Location {
    fn from(tup: (usize, usize)) -> (r: Self) {
        Location { x: tup.0, y: tup.1 }
    }
}

impl vstd::std_specs::convert::FromSpecImpl<(usize, usize)> for Location {
    open spec fn obeys_from_spec() -> bool {
        true
    }

    open spec fn from_spec(tup: (usize, usize)) -> Location {
        Location { x: tup.0, y: tup.1 }
    }
}

/// The Manhattan distance between two locations.
pub open spec fn manhattan(a: Location, b: Location) -> int {
    manhattan_of(a.x as int, a.y as int, b.x as int, b.y as int)
}

/// Two locations are axis-aligned neighbors: they differ by exactly
/// one in exactly one coordinate.
pub open spec fn loc_adjacent(a: Location, b: Location) -> bool {
    manhattan(a, b) == 1
}

/// The Manhattan distance estimate is symmetric, zero exactly on a
/// pair of equal locations, and never negative.
pub proof fn lemma_heuristic_properties(a: Location, b: Location)
    ensures
        manhattan(a, b) == manhattan(b, a),
        manhattan(a, a) == 0,
        manhattan(a, b) >= 0,
        manhattan(a, b) == 0 ==> a == b,
{
}

/// A bounded 2D grid with a positive traversal cost for entering each
/// cell. The dimensions are fixed at construction; every cell starts
/// at the default cost of one unit.
pub struct WeighterGrid {
    rows: usize,
    cols: usize,
    costs: Vec<u64>,
}

impl WeighterGrid {
    /// One stored cost per cell, every cost positive.
    pub closed spec fn wf(&self) -> bool {
        &&& self.costs@.len() == self.rows * self.cols
        &&& forall|i: int| 0 <= i < self.costs@.len() ==> #[trigger] self.costs@[i] >= 1
    }

    pub closed spec fn spec_rows(&self) -> usize {
        self.rows
    }

    pub closed spec fn spec_cols(&self) -> usize {
        self.cols
    }

    pub open spec fn spec_in_bounds(&self, l: Location) -> bool {
        l.x < self.spec_rows() && l.y < self.spec_cols()
    }

    /// The row-major cell index of a location.
    pub open spec fn idx_of(&self, l: Location) -> int {
        l.x * self.spec_cols() + l.y
    }

    /// The cost of entering a cell.
    pub closed spec fn cost_at(&self, to: Location) -> u64 {
        self.costs@[self.idx_of(to)]
    }

    /// No cell's cost was ever overridden: every cell still carries
    /// the default cost of one unit.
    pub open spec fn no_cost_overrides(&self) -> bool {
        forall|l: Location| self.spec_in_bounds(l) ==> #[trigger] self.cost_at(l) == 1
    }

    /// A location within bounds denotes a cell index within the cost
    /// table.
    pub proof fn lemma_idx_in_range(&self, l: Location)
        requires
            self.wf(),
            self.spec_in_bounds(l),
        ensures
            0 <= self.idx_of(l) < self.spec_rows() * self.spec_cols(),
    {
        assert(l.x * self.cols + l.y < self.rows * self.cols) by (nonlinear_arith)
            requires
                l.x < self.rows,
                l.y < self.cols,
        ;
    }

    /// Two distinct in-bounds locations denote distinct cell indices.
    pub proof fn lemma_idx_injective(&self, a: Location, b: Location)
        requires
            self.wf(),
            self.spec_in_bounds(a),
            self.spec_in_bounds(b),
            self.idx_of(a) == self.idx_of(b),
        ensures
            a == b,
    {
        assert(a.x == b.x && a.y == b.y) by (nonlinear_arith)
            requires
                a.y < self.cols,
                b.y < self.cols,
                a.x * self.cols + a.y == b.x * self.cols + b.y,
        ;
    }

    /// The location denoted by a row-major cell index.
    pub open spec fn cell_of(&self, i: int) -> Location {
        Location {
            x: (i / (self.spec_cols() as int)) as usize,
            y: (i % (self.spec_cols() as int)) as usize,
        }
    }

    /// Decoding a cell index gives the in-bounds location that
    /// encodes back to the same index.
    pub proof fn lemma_cell_of(&self, i: int)
        requires
            self.wf(),
            0 <= i < self.spec_rows() * self.spec_cols(),
        ensures
            self.spec_in_bounds(self.cell_of(i)),
            self.idx_of(self.cell_of(i)) == i,
    {
        let c = self.spec_cols() as int;
        let r = self.spec_rows() as int;
        assert(c > 0) by {
            if c <= 0 {
                assert(r * c <= 0) by (nonlinear_arith)
                    requires
                        c <= 0,
                        r >= 0,
                ;
            }
        }
        vstd::arithmetic::div_mod::lemma_fundamental_div_mod(i, c);
        vstd::arithmetic::div_mod::lemma_mod_bound(i, c);
        let q = i / c;
        assert(q >= 0) by (nonlinear_arith)
            requires
                c > 0,
                i >= 0,
                i == c * q + (i % c),
                0 <= i % c < c,
        ;
        assert(q < r) by {
            if q >= r {
                vstd::arithmetic::mul::lemma_mul_inequality(r, q, c);
                assert(r * c <= q * c);
                assert(i >= q * c) by (nonlinear_arith)
                    requires
                        i == c * q + (i % c),
                        0 <= i % c,
                ;
            }
        }
        assert(self.cell_of(i).x == q && self.cell_of(i).y == i % c);
        assert(q * c + (i % c) == i) by (nonlinear_arith)
            requires
                i == c * q + (i % c),
        ;
    }

    /// Decodes a row-major cell index into its location.
    pub fn cell_at(&self, i: usize) -> (r: Location)
        requires
            self.wf(),
            0 <= (i as int) < self.spec_rows() * self.spec_cols(),
        ensures
            r == self.cell_of(i as int),
            self.spec_in_bounds(r),
            self.idx_of(r) == i as int,
    {
        proof {
            self.lemma_cell_of(i as int);
        }
        Location { x: i / self.cols, y: i % self.cols }
    }

    /// The number of cells; dimensions always describe a cell count
    /// that fits the machine.
    pub fn cell_count(&self) -> (r: usize)
        requires
            self.wf(),
        ensures
            r == self.spec_rows() * self.spec_cols(),
    {
        self.costs.len()
    }

    /// Entering any in-bounds cell costs at least one unit.
    pub proof fn lemma_cost_at_positive(&self, l: Location)
        requires
            self.wf(),
            self.spec_in_bounds(l),
        ensures
            self.cost_at(l) >= 1,
    {
        self.lemma_idx_in_range(l);
    }

    /// Builds a grid of the given dimensions with every cell at the
    /// default cost of one unit.
    pub fn new(rows: usize, cols: usize) -> (r: Self)
        requires
            rows * cols <= usize::MAX,
        ensures
            r.wf(),
            r.spec_rows() == rows,
            r.spec_cols() == cols,
            r.no_cost_overrides(),
    {
        let n = rows * cols;
        let mut costs: Vec<u64> = Vec::new();
        let mut i: usize = 0;
        while i < n
            invariant
                0 <= i <= n,
                costs@.len() == i,
                forall|j: int| 0 <= j < i ==> #[trigger] costs@[j] == 1,
            decreases n - i,
        {
            costs.push(1);
            i += 1;
        }
        let r = WeighterGrid { rows, cols, costs };
        proof {
            assert forall|l: Location| r.spec_in_bounds(l) implies #[trigger] r.cost_at(l)
                == 1 by {
                r.lemma_idx_in_range(l);
            }
        }
        r
    }

    pub fn rows(&self) -> (r: usize)
        ensures
            r == self.spec_rows(),
    {
        self.rows
    }

    pub fn cols(&self) -> (r: usize)
        ensures
            r == self.spec_cols(),
    {
        self.cols
    }

    pub fn in_bounds(&self, l: Location) -> (r: bool)
        ensures
            r == self.spec_in_bounds(l),
    {
        l.x < self.rows && l.y < self.cols
    }

    /// Whether a cell may be entered during traversal. Every cell is
    /// passable; the predicate is the reserved extension point for
    /// obstacle support.
    pub open spec fn spec_passable(&self, l: Location) -> bool {
        true
    }

    pub fn passable(&self, l: Location) -> (r: bool)
        ensures
            r == self.spec_passable(l),
    {
        true
    }

    /// Overrides the cost of entering one cell.
    pub fn set_cost(&mut self, to: Location, cost: u64)
        requires
            old(self).wf(),
            old(self).spec_in_bounds(to),
            cost >= 1,
        ensures
            final(self).wf(),
            final(self).spec_rows() == old(self).spec_rows(),
            final(self).spec_cols() == old(self).spec_cols(),
            final(self).cost_at(to) == cost,
            forall|l: Location|
                old(self).spec_in_bounds(l) && l != to ==> #[trigger] final(self).cost_at(l)
                    == old(self).cost_at(l),
    {
        let total: usize = self.costs.len();
        proof {
            self.lemma_idx_in_range(to);
            assert(to.x * self.cols + to.y < total);
        }
        let idx = to.x * self.cols + to.y;
        self.costs[idx] = cost;
        proof {
            assert forall|l: Location|
                old(self).spec_in_bounds(l) && l != to implies #[trigger] self.cost_at(l) == old(
                self,
            ).cost_at(l) by {
                old(self).lemma_idx_in_range(l);
                if self.idx_of(l) == self.idx_of(to) {
                    old(self).lemma_idx_injective(l, to);
                }
            }
        }
    }

    /// The cost of moving into `to`; the origin does not matter in
    /// the current model.
    pub fn cost(&self, from: Location, to: Location) -> (r: u64)
        requires
            self.wf(),
            self.spec_in_bounds(to),
        ensures
            r == self.cost_at(to),
            r >= 1,
    {
        let total: usize = self.costs.len();
        proof {
            self.lemma_idx_in_range(to);
            assert(to.x * self.cols + to.y < total);
        }
        self.costs[to.x * self.cols + to.y]
    }

    /// The admissible distance estimate between two locations: the
    /// Manhattan distance.
    pub fn heuristic(&self, from: Location, to: Location) -> (r: u64)
        requires
            manhattan(from, to) <= u64::MAX,
        ensures
            r == manhattan(from, to),
    {
        let dx = if from.x >= to.x {
            from.x - to.x
        } else {
            to.x - from.x
        };
        let dy = if from.y >= to.y {
            from.y - to.y
        } else {
            to.y - from.y
        };
        dx as u64 + dy as u64
    }

    /// The in-bounds, passable, axis-aligned neighbors of a cell,
    /// each once. Neighbor candidates are generated without ever
    /// stepping below zero in either coordinate.
    pub fn neighbors(&self, loc: Location) -> (r: Vec<Location>)
        requires
            self.wf(),
            self.spec_in_bounds(loc),
        ensures
            r@.no_duplicates(),
            r@.len() <= 4,
            forall|v: Location| #[trigger]
                r@.contains(v) <==> self.spec_in_bounds(v) && loc_adjacent(loc, v)
                    && self.spec_passable(v),
    {
        let x = loc.x;
        let y = loc.y;
        let mut r: Vec<Location> = Vec::new();
        if y + 1 < self.cols && self.passable(Location { x, y: y + 1 }) {
            r.push(Location { x, y: y + 1 });
        }
        if x + 1 < self.rows && self.passable(Location { x: x + 1, y }) {
            r.push(Location { x: x + 1, y });
        }
        if x > 0 && self.passable(Location { x: x - 1, y }) {
            r.push(Location { x: x - 1, y });
        }
        if y > 0 && self.passable(Location { x, y: y - 1 }) {
            r.push(Location { x, y: y - 1 });
        }
        proof {
            assert forall|v: Location| #[trigger]
                r@.contains(v) <==> self.spec_in_bounds(v) && loc_adjacent(loc, v)
                    && self.spec_passable(v) by {
                if self.spec_in_bounds(v) && loc_adjacent(loc, v) {
                    if v.x == x && v.y == y + 1 {
                        assert(r@.contains(v));
                    } else if v.x == x + 1 && v.y == y {
                        assert(r@.contains(v));
                    } else if x > 0 && v.x == x - 1 && v.y == y {
                        assert(r@.contains(v));
                    } else {
                        assert(y > 0 && v.x == x && v.y == y - 1);
                        assert(r@.contains(v));
                    }
                }
            }
        }
        r
    }
}

/// The law that a grid with no explicit cost overrides charges
/// exactly the default cost of one unit for entering any in-bounds
/// cell.
pub proof fn lemma_default_cost(g: WeighterGrid, to: Location)
    requires
        g.wf(),
        g.no_cost_overrides(),
        g.spec_in_bounds(to),
    ensures
        g.cost_at(to) == 1,
{
}

/// The total cost of a path: the cost of entering each location
/// after the first.
pub open spec fn spec_path_cost(g: WeighterGrid, p: Seq<Location>) -> int
    decreases p.len(),
{
    if p.len() <= 1 {
        0
    } else {
        spec_path_cost(g, p.drop_last()) + g.cost_at(p.last())
    }
}

/// A prefix of a path never costs more than the whole path.
proof fn lemma_path_cost_prefix(g: WeighterGrid, p: Seq<Location>, k: int)
    requires
        1 <= k <= p.len(),
    ensures
        spec_path_cost(g, p.subrange(0, k)) <= spec_path_cost(g, p),
    decreases p.len() - k,
{
    if k == p.len() {
        assert(p.subrange(0, k) =~= p);
    } else {
        assert(p.subrange(0, k + 1).drop_last() =~= p.subrange(0, k));
        assert(p.subrange(0, k + 1).last() == p[k]);
        lemma_path_cost_prefix(g, p, k + 1);
    }
}

/// A path across the grid: at least the one location `s`, ending at
/// `t`, every location in bounds, every step between axis-aligned
/// neighbors.
pub open spec fn grid_path(g: WeighterGrid, p: Seq<Location>, s: Location, t: Location) -> bool {
    &&& p.len() >= 1
    &&& p[0] == s
    &&& p.last() == t
    &&& forall|i: int| 0 <= i < p.len() ==> g.spec_in_bounds(#[trigger] p[i])
    &&& forall|i: int| 0 <= i < p.len() - 1 ==> loc_adjacent(#[trigger] p[i], p[i + 1])
}

/// The Manhattan distance obeys the triangle inequality.
pub proof fn lemma_manhattan_triangle(a: Location, b: Location, c: Location)
    ensures
        manhattan(a, c) <= manhattan(a, b) + manhattan(b, c),
{
}

/// A path's total cost is never negative.
pub proof fn lemma_path_cost_nonneg(g: WeighterGrid, p: Seq<Location>)
    ensures
        spec_path_cost(g, p) >= 0,
    decreases p.len(),
{
    if p.len() > 1 {
        lemma_path_cost_nonneg(g, p.drop_last());
    }
}

/// The law that on a grid with no explicit cost overrides the total
/// cost of a path equals its edge count: every entered cell charges
/// the default one unit.
pub proof fn lemma_uniform_path_cost(g: WeighterGrid, p: Seq<Location>)
    requires
        g.wf(),
        g.no_cost_overrides(),
        p.len() >= 1,
        forall|i: int| 0 <= i < p.len() ==> g.spec_in_bounds(#[trigger] p[i]),
    ensures
        spec_path_cost(g, p) == p.len() - 1,
    decreases p.len(),
{
    if p.len() > 1 {
        let shorter = p.drop_last();
        assert forall|i: int| 0 <= i < shorter.len() implies g.spec_in_bounds(
            #[trigger] shorter[i],
        ) by {
            assert(shorter[i] == p[i]);
        }
        lemma_uniform_path_cost(g, shorter);
        assert(g.cost_at(p.last()) == 1);
    }
}

/// The law that the Manhattan estimate is admissible: with every
/// step entering an in-bounds cell of positive cost, no path from one
/// location to another costs less than the Manhattan distance between
/// them.
pub proof fn lemma_heuristic_admissible(g: WeighterGrid, p: Seq<Location>)
    requires
        g.wf(),
        p.len() >= 1,
        forall|i: int| 0 <= i < p.len() ==> g.spec_in_bounds(#[trigger] p[i]),
        forall|i: int| 0 <= i < p.len() - 1 ==> loc_adjacent(#[trigger] p[i], p[i + 1]),
    ensures
        manhattan(p[0], p.last()) <= spec_path_cost(g, p),
    decreases p.len(),
{
    if p.len() > 1 {
        let shorter = p.drop_last();
        assert forall|i: int|
            0 <= i < shorter.len() - 1 implies loc_adjacent(
            #[trigger] shorter[i],
            shorter[i + 1],
        ) by {
            assert(shorter[i] == p[i]);
            assert(shorter[i + 1] == p[i + 1]);
        }
        lemma_heuristic_admissible(g, shorter);
        let prev = p[p.len() - 2];
        let last = p.last();
        assert(loc_adjacent(prev, last));
        assert(manhattan(p[0], last) <= manhattan(p[0], prev) + 1);
        g.lemma_idx_in_range(last);
        assert(g.cost_at(last) >= 1);
    }
}

impl WeighterGrid {
    /// Sums the traversal cost of a path, entering each location
    /// after the first; `None` when the sum does not fit in 64 bits.
    pub fn path_cost(&self, path: &Vec<Location>) -> (r: Option<u64>)
        requires
            self.wf(),
            forall|i: int| 0 <= i < path@.len() ==> self.spec_in_bounds(#[trigger] path@[i]),
        ensures
            match r {
                Some(c) => c == spec_path_cost(*self, path@),
                None => spec_path_cost(*self, path@) > u64::MAX,
            },
    {
        let n = path.len();
        if n == 0 {
            return Some(0);
        }
        let mut acc: u64 = 0;
        let mut i: usize = 1;
        proof {
            assert(path@.subrange(0, 1).len() == 1);
        }
        while i < n
            invariant
                self.wf(),
                n == path@.len(),
                1 <= i <= n,
                forall|j: int| 0 <= j < path@.len() ==> self.spec_in_bounds(#[trigger] path@[j]),
                acc == spec_path_cost(*self, path@.subrange(0, i as int)),
            decreases n - i,
        {
            let c = self.cost(path[i - 1], path[i]);
            proof {
                assert(path@.subrange(0, i as int + 1).drop_last() =~= path@.subrange(0, i as int));
                assert(path@.subrange(0, i as int + 1).last() == path@[i as int]);
            }
            match acc.checked_add(c) {
                Some(next) => {
                    acc = next;
                },
                None => {
                    proof {
                        lemma_path_cost_prefix(*self, path@, i as int + 1);
                    }
                    return None;
                },
            }
            i += 1;
        }
        proof {
            assert(path@.subrange(0, n as int) =~= path@);
        }
        Some(acc)
    }
}

} // verus!
