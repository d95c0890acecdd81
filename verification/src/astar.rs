//! The A* search driver over a weighted grid. The frontier is an
//! outside priority queue ordered by estimated total cost; the
//! cost-so-far and came-from bookkeeping are per-cell tables, and a
//! private reconstruction walk turns the finished bookkeeping into an
//! ordered path.

use vstd::prelude::*;

use vstd::multiset::Multiset;

use crate::grid::Location;
use crate::grid::WeighterGrid;
use crate::grid::grid_path;
use crate::grid::lemma_manhattan_triangle;
use crate::grid::lemma_path_cost_nonneg;
use crate::grid::loc_adjacent;
use crate::grid::manhattan;
use crate::grid::spec_path_cost;

verus! {

broadcast use {
    vstd::set::group_set_axioms,
    vstd::seq_lib::group_seq_properties,
    vstd::multiset::group_multiset_axioms,
};

#[verifier::external_type_specification]
#[verifier::external_body]
#[verifier::reject_recursive_types(S)]
#[verifier::reject_recursive_types(T)]
pub struct ExPriorityQueue<S, T>(priq::PriorityQueue<S, T>) where S: PartialOrd;

/// The entries a frontier queue holds: (score, payload) pairs, with
/// multiplicity and without order.
pub uninterp spec fn pq_items(q: priq::PriorityQueue<u64, u64>) -> Multiset<(u64, u64)>;

/// Relies on priq::PriorityQueue::new: creates an empty queue.
#[verifier::external_body]
fn pq_new() -> (q: priq::PriorityQueue<u64, u64>)
    ensures
        pq_items(q) == Multiset::<(u64, u64)>::empty(),
{
    priq::PriorityQueue::new()
}

/// Relies on priq::PriorityQueue::put: adds exactly the given entry.
#[verifier::external_body]
fn pq_put(q: &mut priq::PriorityQueue<u64, u64>, score: u64, item: u64)
    ensures
        pq_items(*final(q)) == pq_items(*old(q)).insert((score, item)),
        pq_items(*final(q)).len() == pq_items(*old(q)).len() + 1,
{
    q.put(score, item)
}

/// Relies on priq::PriorityQueue::pop: removes and returns an entry
/// with the lowest score (the structure is a binary min-heap ordered
/// by score), or returns None and changes nothing when the queue is
/// empty.
#[verifier::external_body]
fn pq_pop(q: &mut priq::PriorityQueue<u64, u64>) -> (r: Option<(u64, u64)>)
    ensures
        match r {
            Some(e) => {
                &&& pq_items(*old(q)).count(e) > 0
                &&& pq_items(*final(q)) == pq_items(*old(q)).remove(e)
                &&& pq_items(*final(q)).len() == pq_items(*old(q)).len() - 1
                &&& forall|other: (u64, u64)|
                    pq_items(*old(q)).count(other) > 0 ==> e.0 <= other.0
            },
            None => {
                &&& pq_items(*old(q)) == Multiset::<(u64, u64)>::empty()
                &&& pq_items(*final(q)) == pq_items(*old(q))
            },
        },
{
    q.pop()
}

/// How many cells have not yet been expanded.
pub open spec fn count_false(s: Seq<bool>) -> nat
    decreases s.len(),
{
    if s.len() == 0 {
        0
    } else {
        count_false(s.drop_last()) + (if s.last() {
            0nat
        } else {
            1nat
        })
    }
}

proof fn lemma_count_false_update(s: Seq<bool>, i: int)
    requires
        0 <= i < s.len(),
        !s[i],
    ensures
        count_false(s.update(i, true)) + 1 == count_false(s),
    decreases s.len(),
{
    let t = s.update(i, true);
    if i == s.len() - 1 {
        assert(t.drop_last() =~= s.drop_last());
        assert(t.last());
        assert(!s.last());
    } else {
        assert(t.drop_last() =~= s.drop_last().update(i, true));
        assert(t.last() == s.last());
        lemma_count_false_update(s.drop_last(), i);
    }
}

/// The bookkeeping discipline the A* loop maintains: one slot per
/// cell; the start cell is discovered at cost zero with no
/// predecessor; every other discovered cell records an adjacent
/// discovered predecessor whose cost, plus the cost of entering the
/// cell, never exceeds the cell's recorded cost; only the start lacks
/// a predecessor among discovered cells.
pub open spec fn came_ok(
    grid: WeighterGrid,
    came: Seq<Option<usize>>,
    gs: Seq<Option<u64>>,
    start_idx: int,
) -> bool {
    let n = grid.spec_rows() * grid.spec_cols();
    &&& came.len() == n
    &&& gs.len() == n
    &&& 0 <= start_idx < n
    &&& gs[start_idx] == Some(0u64)
    &&& came[start_idx] is None
    &&& forall|j: int|
        0 <= j < n ==> ((#[trigger] came[j]) matches Some(i) ==> {
            &&& (i as int) < n
            &&& gs[i as int] is Some
            &&& gs[j] is Some
            &&& gs[i as int]->Some_0 < gs[j]->Some_0
            &&& gs[j]->Some_0 >= gs[i as int]->Some_0 + grid.cost_at(grid.cell_of(j))
            &&& loc_adjacent(grid.cell_of(i as int), grid.cell_of(j))
        })
    &&& forall|j: int|
        0 <= j < n && (#[trigger] gs[j]) is Some && came[j] is None ==> j == start_idx
}

/// Every queued entry points at a discovered cell.
#[verifier::opaque]
pub open spec fn frontier_ok(items: Multiset<(u64, u64)>, gs: Seq<Option<u64>>) -> bool {
    forall|e: (u64, u64)|
        #[trigger] items.count(e) > 0 ==> (e.1 as int) < gs.len() && gs[e.1 as int] is Some
}

/// Every expanded cell is discovered.
spec fn expanded_discovered(gs: Seq<Option<u64>>, expanded: Seq<bool>) -> bool {
    forall|u: int| 0 <= u < expanded.len() && #[trigger] expanded[u] ==> gs[u] is Some
}

/// Expanding a cell relaxed every unexpanded neighbor: the neighbor
/// is discovered at no more than the expanded cell's cost plus the
/// entering cost, unless that sum exceeds the 64-bit range.
#[verifier::opaque]
spec fn fringe_ok(grid: WeighterGrid, gs: Seq<Option<u64>>, expanded: Seq<bool>) -> bool {
    forall|u: int, w: int|
        #![trigger expanded[u], expanded[w]]
        0 <= u < expanded.len() && 0 <= w < expanded.len() && expanded[u] && !expanded[w]
            && loc_adjacent(grid.cell_of(u), grid.cell_of(w)) ==> (gs[u]->Some_0 + grid.cost_at(
            grid.cell_of(w),
        ) > u64::MAX || (gs[w] is Some && gs[w]->Some_0 <= gs[u]->Some_0 + grid.cost_at(
            grid.cell_of(w),
        )))
}

/// An expanded cell's recorded cost never exceeds the total cost of
/// any path to it whose cost, plus the remaining estimate, fits the
/// 64-bit range.
#[verifier::opaque]
spec fn opt_ok(
    grid: WeighterGrid,
    gs: Seq<Option<u64>>,
    expanded: Seq<bool>,
    start: Location,
    goal: Location,
) -> bool {
    forall|u: int, q: Seq<Location>|
        0 <= u < expanded.len() && expanded[u] && #[trigger] grid_path(
            grid,
            q,
            start,
            grid.cell_of(u),
        ) && spec_path_cost(grid, q) + manhattan(grid.cell_of(u), goal) <= u64::MAX ==> gs[u]
            ->Some_0 <= spec_path_cost(grid, q)
}

/// Every discovered, unexpanded cell is covered by a queue entry
/// whose score is at most the cell's cost plus its remaining
/// estimate, unless that sum exceeds the 64-bit range; the queue may
/// exempt one cell, the one whose entry was just popped.
#[verifier::opaque]
spec fn cover_except(
    grid: WeighterGrid,
    items: Multiset<(u64, u64)>,
    gs: Seq<Option<u64>>,
    expanded: Seq<bool>,
    goal: Location,
    except: int,
) -> bool {
    forall|w: int|
        0 <= w < expanded.len() && (#[trigger] gs[w]) is Some && !expanded[w] && w != except ==> (
        gs[w]->Some_0 + manhattan(grid.cell_of(w), goal) > u64::MAX || exists|e: (u64, u64)|
            #[trigger] items.count(e) > 0 && e.1 as int == w && e.0 <= gs[w]->Some_0 + manhattan(
                grid.cell_of(w),
                goal,
            ))
}

/// Every discovered, unexpanded cell is covered, with no exemption.
#[verifier::opaque]
spec fn cover_ok(
    grid: WeighterGrid,
    items: Multiset<(u64, u64)>,
    gs: Seq<Option<u64>>,
    expanded: Seq<bool>,
    goal: Location,
) -> bool {
    forall|w: int|
        0 <= w < expanded.len() && (#[trigger] gs[w]) is Some && !expanded[w] ==> (gs[w]->Some_0
            + manhattan(grid.cell_of(w), goal) > u64::MAX || exists|e: (u64, u64)|
            #[trigger] items.count(e) > 0 && e.1 as int == w && e.0 <= gs[w]->Some_0 + manhattan(
                grid.cell_of(w),
                goal,
            ))
}

/// Every queue entry's score is at least the cell's current cost plus
/// its remaining estimate: scores were exact when pushed, and a
/// cell's cost only improves afterwards.
#[verifier::opaque]
spec fn scores_ok(
    grid: WeighterGrid,
    items: Multiset<(u64, u64)>,
    gs: Seq<Option<u64>>,
    goal: Location,
) -> bool {
    forall|e: (u64, u64)|
        #[trigger] items.count(e) > 0 ==> gs[e.1 as int]->Some_0 + manhattan(
            grid.cell_of(e.1 as int),
            goal,
        ) <= e.0
}

/// Along a chain in which each location's recorded cost covers its
/// predecessor's cost plus the entering cost, the whole path's cost
/// is covered by the endpoint costs.
proof fn lemma_chain_cost_bound(grid: WeighterGrid, gs: Seq<Option<u64>>, p: Seq<Location>)
    requires
        grid.wf(),
        p.len() >= 1,
        forall|t: int| 0 <= t < p.len() ==> grid.spec_in_bounds(#[trigger] p[t]),
        forall|t: int| 0 <= t < p.len() ==> gs[grid.idx_of(#[trigger] p[t])] is Some,
        forall|t: int|
            0 <= t < p.len() - 1 ==> gs[grid.idx_of(#[trigger] p[t + 1])]->Some_0 >= gs[grid.idx_of(
                p[t],
            )]->Some_0 + grid.cost_at(p[t + 1]),
    ensures
        spec_path_cost(grid, p) + gs[grid.idx_of(p[0])]->Some_0 <= gs[grid.idx_of(p.last())]
            ->Some_0,
    decreases p.len(),
{
    if p.len() > 1 {
        let shorter = p.drop_last();
        assert forall|t: int| 0 <= t < shorter.len() implies grid.spec_in_bounds(
            #[trigger] shorter[t],
        ) && gs[grid.idx_of(shorter[t])] is Some by {
            assert(shorter[t] == p[t]);
        }
        assert forall|t: int|
            0 <= t < shorter.len() - 1 implies gs[grid.idx_of(#[trigger] shorter[t + 1])]->Some_0
            >= gs[grid.idx_of(shorter[t])]->Some_0 + grid.cost_at(shorter[t + 1]) by {
            assert(shorter[t] == p[t]);
            assert(shorter[t + 1] == p[t + 1]);
        }
        lemma_chain_cost_bound(grid, gs, shorter);
        assert(shorter.last() == p[p.len() - 2]);
        let t0 = p.len() - 2;
        assert(gs[grid.idx_of(#[trigger] p[t0 + 1])]->Some_0 >= gs[grid.idx_of(p[t0])]->Some_0
            + grid.cost_at(p[t0 + 1]));
        assert(p[t0 + 1] == p.last());
    }
}

/// The cut argument: walking any path through the state of a partly
/// finished search, either some path location is discovered but not
/// yet expanded, at a recorded cost that, together with its distance
/// to the path's end, the path's total cost covers; or the path's end
/// is already expanded at a recorded cost the path's total cost
/// covers.
#[verifier::rlimit(100)]
proof fn lemma_astar_cut(
    grid: WeighterGrid,
    gs: Seq<Option<u64>>,
    expanded: Seq<bool>,
    goal: Location,
    q: Seq<Location>,
)
    requires
        grid.wf(),
        gs.len() == grid.spec_rows() * grid.spec_cols(),
        expanded.len() == gs.len(),
        q.len() >= 1,
        forall|i: int| 0 <= i < q.len() ==> grid.spec_in_bounds(#[trigger] q[i]),
        forall|i: int| 0 <= i < q.len() - 1 ==> loc_adjacent(#[trigger] q[i], q[i + 1]),
        gs[grid.idx_of(q[0])] == Some(0u64),
        spec_path_cost(grid, q) + manhattan(q.last(), goal) <= u64::MAX,
        expanded_discovered(gs, expanded),
        fringe_ok(grid, gs, expanded),
        opt_ok(grid, gs, expanded, q[0], goal),
    ensures
        (exists|t: int|
            0 <= t < q.len() && !expanded[grid.idx_of(#[trigger] q[t])] && gs[grid.idx_of(
                q[t],
            )] is Some && gs[grid.idx_of(q[t])]->Some_0 + manhattan(q[t], q.last())
                <= spec_path_cost(grid, q)) || (expanded[grid.idx_of(q.last())] && gs[grid.idx_of(
            q.last(),
        )] is Some && gs[grid.idx_of(q.last())]->Some_0 <= spec_path_cost(grid, q)),
    decreases q.len(),
{
    reveal(fringe_ok);
    reveal(opt_ok);
    let c_total = spec_path_cost(grid, q);
    if q.len() == 1 {
        lemma_path_cost_nonneg(grid, q);
        let i0 = grid.idx_of(q[0]);
        grid.lemma_idx_in_range(q[0]);
        if !expanded[i0] {
            assert(manhattan(q[0], q.last()) == 0);
            assert(0 <= 0 < q.len() && !expanded[grid.idx_of(q[0])] && gs[grid.idx_of(
                q[0],
            )] is Some && gs[grid.idx_of(q[0])]->Some_0 + manhattan(q[0], q.last()) <= c_total);
        }
    } else {
        let shorter = q.drop_last();
        let x = shorter.last();
        let w = q.last();
        assert(x == q[q.len() - 2]);
        assert forall|i: int| 0 <= i < shorter.len() implies grid.spec_in_bounds(
            #[trigger] shorter[i],
        ) by {
            assert(shorter[i] == q[i]);
        }
        assert forall|i: int| 0 <= i < shorter.len() - 1 implies loc_adjacent(
            #[trigger] shorter[i],
            shorter[i + 1],
        ) by {
            assert(shorter[i] == q[i]);
            assert(shorter[i + 1] == q[i + 1]);
        }
        assert(shorter[0] == q[0]);
        let c_short = spec_path_cost(grid, shorter);
        assert(c_total == c_short + grid.cost_at(w));
        grid.lemma_idx_in_range(w);
        grid.lemma_cost_at_positive(w);
        assert(grid.cost_at(w) >= 1);
        assert(loc_adjacent(x, w));
        assert(manhattan(x, w) == 1);
        lemma_manhattan_triangle(x, w, goal);
        assert(c_short + manhattan(x, goal) <= u64::MAX);
        lemma_astar_cut(grid, gs, expanded, goal, shorter);
        if exists|t: int|
            0 <= t < shorter.len() && !expanded[grid.idx_of(#[trigger] shorter[t])]
                && gs[grid.idx_of(shorter[t])] is Some && gs[grid.idx_of(shorter[t])]->Some_0
                + manhattan(shorter[t], shorter.last()) <= c_short {
            let t = choose|t: int|
                0 <= t < shorter.len() && !expanded[grid.idx_of(#[trigger] shorter[t])]
                    && gs[grid.idx_of(shorter[t])] is Some && gs[grid.idx_of(shorter[t])]->Some_0
                    + manhattan(shorter[t], shorter.last()) <= c_short;
            assert(shorter[t] == q[t]);
            lemma_manhattan_triangle(q[t], x, w);
            assert(gs[grid.idx_of(q[t])]->Some_0 + manhattan(q[t], q.last()) <= c_total);
            assert(0 <= t < q.len() && !expanded[grid.idx_of(q[t])] && gs[grid.idx_of(
                q[t],
            )] is Some && gs[grid.idx_of(q[t])]->Some_0 + manhattan(q[t], q.last()) <= c_total);
        } else {
            let xi = grid.idx_of(x);
            let wi = grid.idx_of(w);
            grid.lemma_idx_in_range(x);
            assert(expanded[xi] && gs[xi]->Some_0 <= c_short);
            assert(gs[xi] is Some);
            grid.lemma_cell_of(xi);
            grid.lemma_idx_injective(grid.cell_of(xi), x);
            grid.lemma_cell_of(wi);
            grid.lemma_idx_injective(grid.cell_of(wi), w);
            assert(manhattan(w, goal) >= 0);
            if expanded[wi] {
                assert(grid_path(grid, q, q[0], grid.cell_of(wi)));
                assert(spec_path_cost(grid, q) + manhattan(grid.cell_of(wi), goal) <= u64::MAX);
                assert(gs[wi]->Some_0 <= c_total);
            } else {
                assert(loc_adjacent(grid.cell_of(xi), grid.cell_of(wi)));
                assert(gs[xi]->Some_0 + grid.cost_at(grid.cell_of(wi)) <= c_total);
                assert(c_total <= u64::MAX);
                assert(gs[wi] is Some && gs[wi]->Some_0 <= gs[xi]->Some_0 + grid.cost_at(
                    grid.cell_of(wi),
                ));
                assert(manhattan(q[q.len() - 1], q.last()) == 0);
                assert(0 <= q.len() - 1 < q.len() && !expanded[grid.idx_of(q[q.len() - 1])]
                    && gs[grid.idx_of(q[q.len() - 1])] is Some && gs[grid.idx_of(
                    q[q.len() - 1],
                )]->Some_0 + manhattan(q[q.len() - 1], q.last()) <= c_total);
            }
        }
    }
}

/// When a minimal-score entry leaves the queue for an unexpanded
/// cell, that cell's recorded cost is optimal: no sufficiently small
/// path to it costs less.
#[verifier::rlimit(100)]
proof fn lemma_pop_min_bound(
    grid: WeighterGrid,
    gs: Seq<Option<u64>>,
    expanded: Seq<bool>,
    items: Multiset<(u64, u64)>,
    start: Location,
    goal: Location,
    popped: (u64, u64),
)
    requires
        grid.wf(),
        gs.len() == grid.spec_rows() * grid.spec_cols(),
        expanded.len() == gs.len(),
        grid.spec_in_bounds(start),
        gs[grid.idx_of(start)] == Some(0u64),
        expanded_discovered(gs, expanded),
        fringe_ok(grid, gs, expanded),
        opt_ok(grid, gs, expanded, start, goal),
        frontier_ok(items, gs),
        scores_ok(grid, items, gs, goal),
        cover_ok(grid, items, gs, expanded, goal),
        items.count(popped) > 0,
        forall|e: (u64, u64)| #[trigger] items.count(e) > 0 ==> popped.0 <= e.0,
        !expanded[popped.1 as int],
    ensures
        forall|q: Seq<Location>|
            #[trigger] grid_path(grid, q, start, grid.cell_of(popped.1 as int)) && spec_path_cost(
                grid,
                q,
            ) + manhattan(grid.cell_of(popped.1 as int), goal) <= u64::MAX ==> gs[popped.1 as int]
                ->Some_0 <= spec_path_cost(grid, q),
{
    reveal(frontier_ok);
    reveal(scores_ok);
    reveal(cover_ok);
    let u = popped.1 as int;
    let ucell = grid.cell_of(u);
    assert(gs[u] is Some);
    grid.lemma_cell_of(u);
    assert forall|q: Seq<Location>|
        #[trigger] grid_path(grid, q, start, ucell) && spec_path_cost(grid, q) + manhattan(
            ucell,
            goal,
        ) <= u64::MAX implies gs[u]->Some_0 <= spec_path_cost(grid, q) by {
        let c_total = spec_path_cost(grid, q);
        assert(q.len() >= 1 && q[0] == start && q.last() == ucell);
        assert(gs[grid.idx_of(q[0])] == Some(0u64));
        lemma_astar_cut(grid, gs, expanded, goal, q);
        if exists|t: int|
            0 <= t < q.len() && !expanded[grid.idx_of(#[trigger] q[t])] && gs[grid.idx_of(
                q[t],
            )] is Some && gs[grid.idx_of(q[t])]->Some_0 + manhattan(q[t], q.last()) <= c_total {
            let t = choose|t: int|
                0 <= t < q.len() && !expanded[grid.idx_of(#[trigger] q[t])] && gs[grid.idx_of(
                    q[t],
                )] is Some && gs[grid.idx_of(q[t])]->Some_0 + manhattan(q[t], q.last()) <= c_total;
            let y = q[t];
            let yi = grid.idx_of(y);
            assert(grid.spec_in_bounds(q[t]));
            grid.lemma_idx_in_range(y);
            grid.lemma_cell_of(yi);
            grid.lemma_idx_injective(grid.cell_of(yi), y);
            lemma_manhattan_triangle(y, ucell, goal);
            assert(gs[yi]->Some_0 + manhattan(grid.cell_of(yi), goal) <= c_total + manhattan(
                ucell,
                goal,
            ));
            assert(gs[yi]->Some_0 + manhattan(grid.cell_of(yi), goal) <= u64::MAX);
            let e = choose|e: (u64, u64)|
                #[trigger] items.count(e) > 0 && e.1 as int == yi && e.0 <= gs[yi]->Some_0
                    + manhattan(grid.cell_of(yi), goal);
            assert(popped.0 <= e.0);
            assert(gs[u]->Some_0 + manhattan(grid.cell_of(u), goal) <= popped.0);
            assert(gs[u]->Some_0 + manhattan(ucell, goal) <= c_total + manhattan(ucell, goal));
        } else {
            assert(expanded[grid.idx_of(q.last())]);
            assert(grid.idx_of(ucell) == u);
            assert(false);
        }
    }
}

/// With the queue exhausted and the goal never expanded, no path of
/// representable cost joins the start to the goal.
proof fn lemma_empty_no_path(
    grid: WeighterGrid,
    gs: Seq<Option<u64>>,
    expanded: Seq<bool>,
    start: Location,
    goal: Location,
)
    requires
        grid.wf(),
        gs.len() == grid.spec_rows() * grid.spec_cols(),
        expanded.len() == gs.len(),
        grid.spec_in_bounds(start),
        grid.spec_in_bounds(goal),
        gs[grid.idx_of(start)] == Some(0u64),
        expanded_discovered(gs, expanded),
        fringe_ok(grid, gs, expanded),
        opt_ok(grid, gs, expanded, start, goal),
        forall|w: int|
            0 <= w < expanded.len() && (#[trigger] gs[w]) is Some && !expanded[w] ==> gs[w]->Some_0
                + manhattan(grid.cell_of(w), goal) > u64::MAX,
        !expanded[grid.idx_of(goal)],
    ensures
        forall|q: Seq<Location>|
            !(#[trigger] grid_path(grid, q, start, goal) && spec_path_cost(grid, q) <= u64::MAX),
{
    assert forall|q: Seq<Location>|
        !(#[trigger] grid_path(grid, q, start, goal) && spec_path_cost(grid, q) <= u64::MAX) by {
        if grid_path(grid, q, start, goal) && spec_path_cost(grid, q) <= u64::MAX {
            let c_total = spec_path_cost(grid, q);
            assert(manhattan(q.last(), goal) == 0);
            assert(gs[grid.idx_of(q[0])] == Some(0u64));
            lemma_astar_cut(grid, gs, expanded, goal, q);
            if exists|t: int|
                0 <= t < q.len() && !expanded[grid.idx_of(#[trigger] q[t])] && gs[grid.idx_of(
                    q[t],
                )] is Some && gs[grid.idx_of(q[t])]->Some_0 + manhattan(q[t], q.last())
                    <= c_total {
                let t = choose|t: int|
                    0 <= t < q.len() && !expanded[grid.idx_of(#[trigger] q[t])] && gs[grid.idx_of(
                        q[t],
                    )] is Some && gs[grid.idx_of(q[t])]->Some_0 + manhattan(q[t], q.last())
                        <= c_total;
                let y = q[t];
                let yi = grid.idx_of(y);
                assert(grid.spec_in_bounds(q[t]));
                grid.lemma_idx_in_range(y);
                grid.lemma_cell_of(yi);
                grid.lemma_idx_injective(grid.cell_of(yi), y);
                lemma_manhattan_triangle(y, q.last(), goal);
                assert(gs[yi]->Some_0 + manhattan(grid.cell_of(yi), goal) <= c_total);
                assert(false);
            } else {
                grid.lemma_idx_in_range(goal);
                assert(expanded[grid.idx_of(goal)]);
                assert(false);
            }
        }
    }
}

/// Walks the came-from table backward from the goal cell and returns
/// the discovered path, ordered start to goal, both included; the
/// path's total cost is covered by the goal's recorded cost.
fn reconstruct(
    grid: &WeighterGrid,
    came: &Vec<Option<usize>>,
    gs: &Vec<Option<u64>>,
    start_idx: usize,
    goal_idx: usize,
) -> (r: Vec<Location>)
    requires
        grid.wf(),
        came_ok(*grid, came@, gs@, start_idx as int),
        (goal_idx as int) < grid.spec_rows() * grid.spec_cols(),
        gs@[goal_idx as int] is Some,
    ensures
        r@.len() >= 1,
        r@[0] == grid.cell_of(start_idx as int),
        r@.last() == grid.cell_of(goal_idx as int),
        forall|i: int| 0 <= i < r@.len() ==> grid.spec_in_bounds(#[trigger] r@[i]),
        forall|i: int| 0 <= i < r@.len() - 1 ==> loc_adjacent(#[trigger] r@[i], r@[i + 1]),
        start_idx == goal_idx ==> r@.len() == 1,
        spec_path_cost(*grid, r@) <= gs@[goal_idx as int]->Some_0,
{
    let ghost n = grid.spec_rows() * grid.spec_cols();
    let mut rev: Vec<usize> = Vec::new();
    rev.push(goal_idx);
    let mut cur: usize = goal_idx;
    while cur != start_idx
        invariant
            grid.wf(),
            came_ok(*grid, came@, gs@, start_idx as int),
            n == grid.spec_rows() * grid.spec_cols(),
            (cur as int) < n,
            gs@[cur as int] is Some,
            rev@.len() >= 1,
            rev@[0] == goal_idx,
            rev@.last() == cur,
            start_idx == goal_idx ==> rev@.len() == 1,
            forall|k: int| 0 <= k < rev@.len() ==> (#[trigger] rev@[k] as int) < n,
            forall|k: int| 0 <= k < rev@.len() ==> gs@[#[trigger] rev@[k] as int] is Some,
            forall|k: int| 0 <= k < rev@.len() - 1 ==> came@[#[trigger] rev@[k] as int] == Some(
                rev@[k + 1],
            ),
        decreases gs@[cur as int]->Some_0,
    {
        let prev = match came[cur] {
            Some(p) => p,
            None => {
                // provably unreachable: among discovered cells only
                // the start lacks a predecessor
                proof {
                    assert(false);
                }
                0
            },
        };
        rev.push(prev);
        cur = prev;
    }
    let m = rev.len();
    let mut r: Vec<Location> = Vec::new();
    let mut j: usize = 0;
    while j < m
        invariant
            grid.wf(),
            came_ok(*grid, came@, gs@, start_idx as int),
            n == grid.spec_rows() * grid.spec_cols(),
            m == rev@.len(),
            0 <= j <= m,
            r@.len() == j,
            forall|k: int| 0 <= k < rev@.len() ==> (#[trigger] rev@[k] as int) < n,
            forall|t: int|
                0 <= t < j ==> #[trigger] r@[t] == grid.cell_of(rev@[m - 1 - t] as int),
            forall|t: int| 0 <= t < j ==> grid.spec_in_bounds(#[trigger] r@[t]),
        decreases m - j,
    {
        let idx = rev[m - 1 - j];
        let loc = grid.cell_at(idx);
        r.push(loc);
        j += 1;
    }
    proof {
        assert(r@[0] == grid.cell_of(rev@[m - 1] as int));
        assert(rev@[m - 1] == cur);
        assert forall|i: int| 0 <= i < r@.len() - 1 implies loc_adjacent(
            #[trigger] r@[i],
            r@[i + 1],
        ) by {
            let k = m - 2 - i;
            assert(came@[rev@[k] as int] == Some(rev@[k + 1]));
            assert(r@[i] == grid.cell_of(rev@[k + 1] as int));
            assert(r@[i + 1] == grid.cell_of(rev@[k] as int));
        }
        assert forall|t: int| 0 <= t < r@.len() implies gs@[grid.idx_of(#[trigger] r@[t])]
            is Some by {
            grid.lemma_cell_of(rev@[m - 1 - t] as int);
        }
        assert forall|t: int|
            0 <= t < r@.len() - 1 implies gs@[grid.idx_of(#[trigger] r@[t + 1])]->Some_0
            >= gs@[grid.idx_of(r@[t])]->Some_0 + grid.cost_at(r@[t + 1]) by {
            let k = m - 2 - t;
            assert(came@[rev@[k] as int] == Some(rev@[k + 1]));
            grid.lemma_cell_of(rev@[k] as int);
            grid.lemma_cell_of(rev@[k + 1] as int);
            assert(r@[t] == grid.cell_of(rev@[k + 1] as int));
            assert(r@[t + 1] == grid.cell_of(rev@[k] as int));
        }
        lemma_chain_cost_bound(*grid, gs@, r@);
        grid.lemma_cell_of(rev@[m - 1] as int);
        grid.lemma_cell_of(rev@[0] as int);
        assert(grid.idx_of(r@[0]) == start_idx as int);
        assert(grid.idx_of(r@[r@.len() - 1]) == goal_idx as int);
    }
    r
}

/// The failure a search reports before it begins: an endpoint outside
/// the grid.
#[derive(PartialEq, Eq, Structural, Clone, Copy, Debug)]
pub enum SearchError {
    OutOfBounds,
}


/// One relaxation step of the A* loop: offers the cell being
/// expanded as a predecessor of one unexpanded neighbor, recording
/// the improved cost and queueing the neighbor under its new
/// estimate; an already expanded neighbor is left final.
#[verifier::rlimit(100)]
fn relax_neighbor(
    grid: &WeighterGrid,
    gs: &mut Vec<Option<u64>>,
    came: &mut Vec<Option<usize>>,
    frontier: &mut priq::PriorityQueue<u64, u64>,
    expanded: &Vec<bool>,
    idx: usize,
    g_cur: u64,
    cur_loc: Location,
    nb: Location,
    start: Location,
    goal: Location,
    Ghost(start_idx): Ghost<int>,
)
    requires
        grid.wf(),
        grid.spec_in_bounds(goal),
        came_ok(*grid, old(came)@, old(gs)@, start_idx),
        expanded@.len() == grid.spec_rows() * grid.spec_cols(),
        frontier_ok(pq_items(*old(frontier)), old(gs)@),
        scores_ok(*grid, pq_items(*old(frontier)), old(gs)@, goal),
        cover_except(*grid, pq_items(*old(frontier)), old(gs)@, expanded@, goal, idx as int),
        fringe_ok(*grid, old(gs)@, expanded@),
        opt_ok(*grid, old(gs)@, expanded@, start, goal),
        expanded_discovered(old(gs)@, expanded@),
        (idx as int) < expanded@.len(),
        !expanded@[idx as int],
        old(gs)@[idx as int] == Some(g_cur),
        cur_loc == grid.cell_of(idx as int),
        grid.spec_in_bounds(nb),
        loc_adjacent(cur_loc, nb),
    ensures
        final(gs)@.len() == old(gs)@.len(),
        final(came)@.len() == old(came)@.len(),
        came_ok(*grid, final(came)@, final(gs)@, start_idx),
        frontier_ok(pq_items(*final(frontier)), final(gs)@),
        scores_ok(*grid, pq_items(*final(frontier)), final(gs)@, goal),
        cover_except(
            *grid,
            pq_items(*final(frontier)),
            final(gs)@,
            expanded@,
            goal,
            idx as int,
        ),
        fringe_ok(*grid, final(gs)@, expanded@),
        opt_ok(*grid, final(gs)@, expanded@, start, goal),
        expanded_discovered(final(gs)@, expanded@),
        forall|w: int|
            0 <= w < final(gs)@.len() && (#[trigger] old(gs)@[w]) is Some ==> final(gs)@[w] is Some
                && final(gs)@[w]->Some_0 <= old(gs)@[w]->Some_0,
        final(gs)@[idx as int] == old(gs)@[idx as int],
        !expanded@[grid.idx_of(nb)] ==> (g_cur + grid.cost_at(nb) > u64::MAX || (final(gs)@[grid.idx_of(nb)] is Some && final(gs)@[grid.idx_of(nb)]->Some_0 <= g_cur + grid.cost_at(nb))),
        pq_items(*final(frontier)).len() <= pq_items(*old(frontier)).len() + 1,
        forall|e: (u64, u64)|
            #[trigger] pq_items(*old(frontier)).count(e) > 0 ==> pq_items(*final(frontier)).count(
                e,
            ) > 0,
{
    let rows = grid.rows();
    let cols = grid.cols();
    let n = grid.cell_count();
    proof {
        grid.lemma_idx_in_range(nb);
    }
    let nb_idx = nb.x * cols + nb.y;
    proof {
        grid.lemma_cell_of(nb_idx as int);
        grid.lemma_idx_injective(grid.cell_of(nb_idx as int), nb);
        if nb_idx == idx {
            grid.lemma_cell_of(idx as int);
            assert(false);
        }
    }
    if !expanded[nb_idx] {
        let c = grid.cost(cur_loc, nb);
        match g_cur.checked_add(c) {
            None => {
                // entering this neighbor would cost more than the
                // 64-bit cost range can express; leave it
            },
            Some(t) => {
                let improve = match gs[nb_idx] {
                    None => true,
                    Some(gn) => t < gn,
                };
                if improve {
                    proof {
                        assert(t > g_cur);
                        assert(nb_idx != start_idx);
                    }
                    let ghost gs0 = gs@;
                    gs[nb_idx] = Some(t);
                    came[nb_idx] = Some(idx);
                    proof {
                        reveal(frontier_ok);
                        reveal(scores_ok);
                        reveal(fringe_ok);
                        reveal(opt_ok);
                        assert(grid.cost_at(grid.cell_of(nb_idx as int)) == c);
                        assert(came_ok(*grid, came@, gs@, start_idx));
                        assert forall|e: (u64, u64)|
                            #[trigger] pq_items(*frontier).count(e) > 0 implies gs@[e.1 as int]
                            ->Some_0 + manhattan(grid.cell_of(e.1 as int), goal) <= e.0 by {
                            if e.1 as int == nb_idx as int {
                                assert(gs0[e.1 as int] is Some);
                                assert(gs@[nb_idx as int]->Some_0 <= gs0[nb_idx as int]->Some_0);
                            }
                        }
                        assert(frontier_ok(pq_items(*frontier), gs@));
                        assert(scores_ok(*grid, pq_items(*frontier), gs@, goal));
                        assert(fringe_ok(*grid, gs@, expanded@));
                        assert(opt_ok(*grid, gs@, expanded@, start, goal));
                    }
                    proof {
                        assert(rows + cols <= n + 1) by (nonlinear_arith)
                            requires
                                rows >= 1,
                                cols >= 1,
                                n == rows * cols,
                        ;
                        assert(manhattan(nb, goal) <= u64::MAX);
                    }
                    let h = grid.heuristic(nb, goal);
                    match t.checked_add(h) {
                        None => {
                            proof {
                                reveal(cover_except);
                                assert(gs@[nb_idx as int]->Some_0 + manhattan(
                                    grid.cell_of(nb_idx as int),
                                    goal,
                                ) > u64::MAX);
                                assert(cover_except(
                                    *grid,
                                    pq_items(*frontier),
                                    gs@,
                                    expanded@,
                                    goal,
                                    idx as int,
                                ));
                            }
                        },
                        Some(fscore) => {
                            let ghost items_pre = pq_items(*frontier);
                            pq_put(frontier, fscore, nb_idx as u64);
                            proof {
                                reveal(frontier_ok);
                                reveal(scores_ok);
                                reveal(cover_except);
                                assert(nb_idx as u64 as int == nb_idx as int);
                                assert(fscore == gs@[nb_idx as int]->Some_0 + manhattan(
                                    grid.cell_of(nb_idx as int),
                                    goal,
                                ));
                                assert forall|e: (u64, u64)|
                                    #[trigger] pq_items(*frontier).count(e) > 0 implies (e.1
                                    as int) < n && gs@[e.1 as int] is Some && gs@[e.1 as int]
                                    ->Some_0 + manhattan(grid.cell_of(e.1 as int), goal)
                                    <= e.0 by {
                                    if e != (fscore, nb_idx as u64) {
                                        assert(items_pre.count(e) > 0);
                                    }
                                }
                                assert(frontier_ok(pq_items(*frontier), gs@));
                                assert(scores_ok(*grid, pq_items(*frontier), gs@, goal));
                                assert forall|w: int|
                                    0 <= w < n && (#[trigger] gs@[w]) is Some && !expanded@[w]
                                        && w != idx as int && gs@[w]->Some_0 + manhattan(
                                        grid.cell_of(w),
                                        goal,
                                    ) <= u64::MAX implies exists|e: (u64, u64)|
                                    #[trigger] pq_items(*frontier).count(e) > 0 && e.1 as int == w
                                        && e.0 <= gs@[w]->Some_0 + manhattan(
                                        grid.cell_of(w),
                                        goal,
                                    ) by {
                                    if w == nb_idx as int {
                                        assert(pq_items(*frontier).count((fscore, nb_idx as u64))
                                            > 0);
                                    } else {
                                        let e = choose|e: (u64, u64)|
                                            #[trigger] items_pre.count(e) > 0 && e.1 as int == w
                                                && e.0 <= gs0[w]->Some_0 + manhattan(
                                                grid.cell_of(w),
                                                goal,
                                            );
                                        assert(gs@[w] == gs0[w]);
                                        assert(pq_items(*frontier).count(e) > 0);
                                    }
                                }
                                assert(cover_except(
                                    *grid,
                                    pq_items(*frontier),
                                    gs@,
                                    expanded@,
                                    goal,
                                    idx as int,
                                ));
                            }
                        },
                    }
                }
            },
        }
    } else {
        // the neighbor is already expanded: its recorded cost is
        // final, so there is nothing to relax
    }
}

impl WeighterGrid {
    /// Best-first search from `start` to `goal` over the grid,
    /// ordered by cost so far plus the Manhattan estimate. Either
    /// endpoint outside the grid is rejected before the search
    /// begins. A non-empty result is a path of in-bounds, pairwise
    /// adjacent cells from `start` to `goal` whose total cost no
    /// other such path undercuts; whenever a path of representable
    /// total cost exists at all, a non-empty path is returned, so an
    /// empty result reports a frontier genuinely exhausted.
    #[verifier::rlimit(100)]
    pub fn a_star_search(&self, start: Location, goal: Location) -> (r: Result<
        Vec<Location>,
        SearchError,
    >)
        requires
            self.wf(),
        ensures
            r is Err <==> (!self.spec_in_bounds(start) || !self.spec_in_bounds(goal)),
            self.spec_in_bounds(start) && start == goal ==> (r matches Ok(p) && p@ == seq![start]),
            (exists|q: Seq<Location>|
                #[trigger] grid_path(*self, q, start, goal) && spec_path_cost(*self, q)
                    <= u64::MAX) ==> (r matches Ok(p) && p@.len() >= 1),
            match r {
                Ok(p) => p@.len() == 0 || {
                    &&& p@[0] == start
                    &&& p@.last() == goal
                    &&& forall|i: int| 0 <= i < p@.len() ==> self.spec_in_bounds(#[trigger] p@[i])
                    &&& forall|i: int|
                        0 <= i < p@.len() - 1 ==> loc_adjacent(#[trigger] p@[i], p@[i + 1])
                    &&& forall|q: Seq<Location>|
                        #[trigger] grid_path(*self, q, start, goal) ==> spec_path_cost(*self, p@)
                            <= spec_path_cost(*self, q)
                },
                Err(e) => e == SearchError::OutOfBounds,
            },
    {
        if !self.in_bounds(start) || !self.in_bounds(goal) {
            proof {
                if exists|q: Seq<Location>|
                    #[trigger] grid_path(*self, q, start, goal) && spec_path_cost(*self, q)
                        <= u64::MAX {
                    let q = choose|q: Seq<Location>|
                        #[trigger] grid_path(*self, q, start, goal) && spec_path_cost(*self, q)
                            <= u64::MAX;
                    assert(self.spec_in_bounds(q[0]));
                    assert(self.spec_in_bounds(q[q.len() - 1]));
                    assert(false);
                }
            }
            return Err(SearchError::OutOfBounds);
        }
        let rows = self.rows();
        let cols = self.cols();
        let n = self.cell_count();
        proof {
            self.lemma_idx_in_range(start);
            self.lemma_idx_in_range(goal);
            assert(rows + cols <= n + 1) by (nonlinear_arith)
                requires
                    rows >= 1,
                    cols >= 1,
                    n == rows * cols,
            ;
        }
        let start_idx = start.x * cols + start.y;
        let goal_idx = goal.x * cols + goal.y;
        let mut gs: Vec<Option<u64>> = Vec::new();
        let mut came: Vec<Option<usize>> = Vec::new();
        let mut expanded: Vec<bool> = Vec::new();
        let mut i: usize = 0;
        while i < n
            invariant
                0 <= i <= n,
                gs@.len() == i,
                came@.len() == i,
                expanded@.len() == i,
                forall|j: int| 0 <= j < i ==> (#[trigger] gs@[j]) is None,
                forall|j: int| 0 <= j < i ==> (#[trigger] came@[j]) is None,
                forall|j: int| 0 <= j < i ==> !(#[trigger] expanded@[j]),
            decreases n - i,
        {
            gs.push(None);
            came.push(None);
            expanded.push(false);
            i += 1;
        }
        gs[start_idx] = Some(0);
        proof {
            self.lemma_cell_of(start_idx as int);
            self.lemma_cell_of(goal_idx as int);
            self.lemma_idx_injective(self.cell_of(start_idx as int), start);
            self.lemma_idx_injective(self.cell_of(goal_idx as int), goal);
            assert(manhattan(start, goal) <= u64::MAX);
        }
        let h0 = self.heuristic(start, goal);
        let mut frontier = pq_new();
        pq_put(&mut frontier, h0, start_idx as u64);
        proof {
            reveal(frontier_ok);
            reveal(scores_ok);
            reveal(cover_ok);
            reveal(fringe_ok);
            reveal(opt_ok);
            assert(pq_items(frontier).count((h0, start_idx as u64)) > 0);
            assert(start_idx as u64 as int == start_idx as int);
            assert forall|e: (u64, u64)| #[trigger] pq_items(frontier).count(e) > 0 implies e
                == (h0, start_idx as u64) by {
                assert(Multiset::<(u64, u64)>::empty().count(e) == 0);
            }
            assert(manhattan(self.cell_of(start_idx as int), goal) == h0);
            assert(frontier_ok(pq_items(frontier), gs@));
            assert(scores_ok(*self, pq_items(frontier), gs@, goal));
            assert forall|w: int|
                0 <= w < n && (#[trigger] gs@[w]) is Some && !expanded@[w] implies (gs@[w]->Some_0
                + manhattan(self.cell_of(w), goal) > u64::MAX || exists|e: (u64, u64)|
                #[trigger] pq_items(frontier).count(e) > 0 && e.1 as int == w && e.0 <= gs@[w]
                    ->Some_0 + manhattan(self.cell_of(w), goal)) by {
                assert(w == start_idx as int);
                assert(pq_items(frontier).count((h0, start_idx as u64)) > 0 && (h0,
                start_idx as u64).1 as int == w && (h0, start_idx as u64).0 <= gs@[w]->Some_0
                    + manhattan(self.cell_of(w), goal));
            }
            assert(cover_ok(*self, pq_items(frontier), gs@, expanded@, goal));
            assert(fringe_ok(*self, gs@, expanded@));
            assert(opt_ok(*self, gs@, expanded@, start, goal));
        }
        loop
            invariant
                self.wf(),
                rows == self.spec_rows(),
                cols == self.spec_cols(),
                n == rows * cols,
                rows >= 1,
                cols >= 1,
                self.spec_in_bounds(start),
                self.spec_in_bounds(goal),
                start_idx == self.idx_of(start),
                goal_idx == self.idx_of(goal),
                (start_idx as int) < n,
                (goal_idx as int) < n,
                start == self.cell_of(start_idx as int),
                goal == self.cell_of(goal_idx as int),
                expanded@.len() == n,
                came_ok(*self, came@, gs@, start_idx as int),
                frontier_ok(pq_items(frontier), gs@),
                !expanded@[goal_idx as int],
                expanded_discovered(gs@, expanded@),
                fringe_ok(*self, gs@, expanded@),
                opt_ok(*self, gs@, expanded@, start, goal),
                cover_ok(*self, pq_items(frontier), gs@, expanded@, goal),
                scores_ok(*self, pq_items(frontier), gs@, goal),
                start_idx == goal_idx ==> exists|e: (u64, u64)|
                    #[trigger] pq_items(frontier).count(e) > 0 && e.1 == goal_idx as u64,
            decreases pq_items(frontier).len() + 5 * count_false(expanded@),
        {
            let ghost items0 = pq_items(frontier);
            let popped = pq_pop(&mut frontier);
            match popped {
                None => {
                    proof {
                        if start == goal {
                            assert(start_idx == goal_idx);
                            let e = choose|e: (u64, u64)|
                                pq_items(frontier).count(e) > 0 && e.1 == goal_idx as u64;
                            assert(false);
                        }
                        reveal(cover_ok);
                        assert forall|w: int|
                            0 <= w < n && (#[trigger] gs@[w]) is Some
                                && !expanded@[w] implies gs@[w]->Some_0 + manhattan(
                            self.cell_of(w),
                            goal,
                        ) > u64::MAX by {
                            if gs@[w]->Some_0 + manhattan(self.cell_of(w), goal) <= u64::MAX {
                                let e = choose|e: (u64, u64)|
                                    #[trigger] items0.count(e) > 0 && e.1 as int == w && e.0
                                        <= gs@[w]->Some_0 + manhattan(self.cell_of(w), goal);
                                assert(false);
                            }
                        }
                        lemma_empty_no_path(*self, gs@, expanded@, start, goal);
                    }
                    return Ok(Vec::new());
                },
                Some((f, item)) => {
                    proof {
                        reveal(frontier_ok);
                        assert(items0.count((f, item)) > 0);
                        assert((item as int) < n);
                        assert(item <= usize::MAX as u64);
                    }
                    let idx = item as usize;
                    proof {
                        assert(idx as int == item as int);
                    }
                    if idx == goal_idx {
                        proof {
                            reveal(frontier_ok);
                            assert(gs@[goal_idx as int] is Some);
                            lemma_pop_min_bound(
                                *self,
                                gs@,
                                expanded@,
                                items0,
                                start,
                                goal,
                                (f, item),
                            );
                        }
                        let p = reconstruct(self, &came, &gs, start_idx, goal_idx);
                        proof {
                            if start == goal {
                                assert(p@.len() == 1);
                                assert(p@ =~= seq![start]);
                            }
                            assert(self.cell_of(item as int) == goal);
                            assert forall|q: Seq<Location>|
                                #[trigger] grid_path(*self, q, start, goal) implies spec_path_cost(
                                *self,
                                p@,
                            ) <= spec_path_cost(*self, q) by {
                                if spec_path_cost(*self, q) > u64::MAX {
                                    assert(spec_path_cost(*self, p@) <= gs@[goal_idx as int]
                                        ->Some_0);
                                } else {
                                    assert(manhattan(goal, goal) == 0);
                                    assert(grid_path(*self, q, start, self.cell_of(item as int)));
                                    assert(spec_path_cost(*self, q) + manhattan(
                                        self.cell_of(item as int),
                                        goal,
                                    ) <= u64::MAX);
                                    assert(gs@[goal_idx as int]->Some_0 <= spec_path_cost(
                                        *self,
                                        q,
                                    ));
                                }
                            }
                        }
                        return Ok(p);
                    }
                    proof {
                        if start_idx == goal_idx {
                            let eg = choose|e: (u64, u64)|
                                items0.count(e) > 0 && e.1 == goal_idx as u64;
                            assert(goal_idx as u64 as usize == goal_idx);
                            assert(eg != (f, item));
                            assert(pq_items(frontier).count(eg) > 0);
                        }
                    }
                    if expanded[idx] {
                        // a stale entry for an already expanded cell: its cost
                        // is final, so the entry is dropped
                        proof {
                            reveal(frontier_ok);
                            reveal(scores_ok);
                            reveal(cover_ok);
                            assert forall|e: (u64, u64)|
                                #[trigger] pq_items(frontier).count(e)
                                    > 0 implies (e.1 as int) < n && gs@[e.1 as int] is Some
                                && gs@[e.1 as int]->Some_0 + manhattan(
                                self.cell_of(e.1 as int),
                                goal,
                            ) <= e.0 by {
                                assert(items0.count(e) > 0);
                            }
                            assert forall|w: int|
                                0 <= w < n && (#[trigger] gs@[w]) is Some && !expanded@[w]
                                    && gs@[w]->Some_0 + manhattan(self.cell_of(w), goal)
                                    <= u64::MAX implies exists|e: (u64, u64)|
                                #[trigger] pq_items(frontier).count(e) > 0 && e.1 as int == w
                                    && e.0 <= gs@[w]->Some_0 + manhattan(
                                    self.cell_of(w),
                                    goal,
                                ) by {
                                let e = choose|e: (u64, u64)|
                                    #[trigger] items0.count(e) > 0 && e.1 as int == w && e.0
                                        <= gs@[w]->Some_0 + manhattan(self.cell_of(w), goal);
                                assert(w != idx as int);
                                assert(e != (f, item));
                                assert(pq_items(frontier).count(e) > 0);
                            }
                            assert(cover_ok(*self, pq_items(frontier), gs@, expanded@, goal));
                            assert(scores_ok(*self, pq_items(frontier), gs@, goal));
                        }
                    } else {
                        proof {
                            lemma_pop_min_bound(
                                *self,
                                gs@,
                                expanded@,
                                items0,
                                start,
                                goal,
                                (f, item),
                            );
                        }
                        let cur_loc = self.cell_at(idx);
                        let g_cur = match gs[idx] {
                            Some(v) => v,
                            None => {
                                // provably unreachable: every queued entry
                                // points at a discovered cell
                                proof {
                                    reveal(frontier_ok);
                                    assert(items0.count((f, item)) > 0);
                                    assert(false);
                                }
                                0
                            },
                        };
                        proof {
                            reveal(frontier_ok);
                            reveal(scores_ok);
                            reveal(cover_ok);
                            reveal(cover_except);
                            assert(self.cell_of(item as int) == cur_loc);
                            assert forall|q: Seq<Location>|
                                #[trigger] grid_path(*self, q, start, cur_loc) && spec_path_cost(
                                    *self,
                                    q,
                                ) + manhattan(cur_loc, goal) <= u64::MAX implies g_cur
                                <= spec_path_cost(*self, q) by {
                                assert(grid_path(*self, q, start, self.cell_of(item as int)));
                            }
                            assert forall|e: (u64, u64)|
                                #[trigger] pq_items(frontier).count(e)
                                    > 0 implies (e.1 as int) < n && gs@[e.1 as int] is Some
                                && gs@[e.1 as int]->Some_0 + manhattan(
                                self.cell_of(e.1 as int),
                                goal,
                            ) <= e.0 by {
                                assert(items0.count(e) > 0);
                            }
                            assert forall|w: int|
                                0 <= w < n && (#[trigger] gs@[w]) is Some && !expanded@[w] && w
                                    != idx as int && gs@[w]->Some_0 + manhattan(
                                    self.cell_of(w),
                                    goal,
                                ) <= u64::MAX implies exists|e: (u64, u64)|
                                #[trigger] pq_items(frontier).count(e) > 0 && e.1 as int == w
                                    && e.0 <= gs@[w]->Some_0 + manhattan(
                                    self.cell_of(w),
                                    goal,
                                ) by {
                                let e = choose|e: (u64, u64)|
                                    #[trigger] items0.count(e) > 0 && e.1 as int == w && e.0
                                        <= gs@[w]->Some_0 + manhattan(self.cell_of(w), goal);
                                assert(e != (f, item));
                                assert(pq_items(frontier).count(e) > 0);
                            }
                            assert(cover_except(*self, pq_items(frontier), gs@, expanded@, goal, idx as int));
                            assert(scores_ok(*self, pq_items(frontier), gs@, goal));
                        }
                        let neighs = self.neighbors(cur_loc);
                        proof {
                            assert forall|t: int|
                                0 <= t < neighs@.len() implies self.spec_in_bounds(
                                #[trigger] neighs@[t],
                            ) && loc_adjacent(cur_loc, neighs@[t]) by {
                                assert(neighs@.contains(neighs@[t]));
                            }
                        }
                        let n_count = neighs.len();
                        let ghost entry_measure = pq_items(frontier).len() + 5 * count_false(
                            expanded@,
                        );
                        let mut k: usize = 0;
                        while k < n_count
                            invariant
                                self.wf(),
                                rows == self.spec_rows(),
                                cols == self.spec_cols(),
                                n == rows * cols,
                                self.spec_in_bounds(start),
                                self.spec_in_bounds(goal),
                                (start_idx as int) < n,
                                (goal_idx as int) < n,
                                start_idx == self.idx_of(start),
                                goal_idx == self.idx_of(goal),
                                start == self.cell_of(start_idx as int),
                                goal == self.cell_of(goal_idx as int),
                                expanded@.len() == n,
                                came_ok(*self, came@, gs@, start_idx as int),
                                frontier_ok(pq_items(frontier), gs@),
                                !expanded@[idx as int],
                                !expanded@[goal_idx as int],
                                idx != goal_idx,
                                expanded_discovered(gs@, expanded@),
                                fringe_ok(*self, gs@, expanded@),
                                opt_ok(*self, gs@, expanded@, start, goal),
                                cover_except(*self, pq_items(frontier), gs@, expanded@, goal, idx as int),
                                scores_ok(*self, pq_items(frontier), gs@, goal),
                                start_idx == goal_idx ==> exists|e: (u64, u64)|
                                    #[trigger] pq_items(frontier).count(e) > 0 && e.1 == goal_idx
                                        as u64,
                                n_count == neighs@.len(),
                                n_count <= 4,
                                0 <= k <= n_count,
                                (idx as int) < n,
                                gs@[idx as int] is Some,
                                g_cur == gs@[idx as int]->Some_0,
                                cur_loc == self.cell_of(idx as int),
                                neighs@.no_duplicates(),
                                forall|t: int|
                                    0 <= t < neighs@.len() ==> self.spec_in_bounds(
                                        #[trigger] neighs@[t],
                                    ) && loc_adjacent(cur_loc, neighs@[t]),
                                forall|q: Seq<Location>|
                                    #[trigger] grid_path(*self, q, start, cur_loc)
                                        && spec_path_cost(*self, q) + manhattan(cur_loc, goal)
                                        <= u64::MAX ==> g_cur <= spec_path_cost(*self, q),
                                forall|t: int|
                                    0 <= t < k ==> (!expanded@[self.idx_of(#[trigger] neighs@[t])]
                                        ==> (g_cur + self.cost_at(neighs@[t]) > u64::MAX || (
                                    gs@[self.idx_of(neighs@[t])] is Some && gs@[self.idx_of(
                                        neighs@[t],
                                    )]->Some_0 <= g_cur + self.cost_at(neighs@[t])))),
                                pq_items(frontier).len() + 5 * count_false(expanded@)
                                    <= entry_measure + k,
                            decreases n_count - k,
                        {
                            let nb = neighs[k];
                            let ghost gs_pre = gs@;
                            let ghost fr_pre = pq_items(frontier);
                            relax_neighbor(
                                self,
                                &mut gs,
                                &mut came,
                                &mut frontier,
                                &expanded,
                                idx,
                                g_cur,
                                cur_loc,
                                nb,
                                start,
                                goal,
                                Ghost(start_idx as int),
                            );
                            proof {
                                if start_idx == goal_idx {
                                    let eg = choose|e: (u64, u64)|
                                        fr_pre.count(e) > 0 && e.1 == goal_idx as u64;
                                    assert(pq_items(frontier).count(eg) > 0);
                                }
                                assert forall|t: int|
                                    0 <= t < k + 1 && !expanded@[self.idx_of(
                                        #[trigger] neighs@[t],
                                    )] implies (g_cur + self.cost_at(neighs@[t]) > u64::MAX || (
                                gs@[self.idx_of(neighs@[t])] is Some && gs@[self.idx_of(
                                    neighs@[t],
                                )]->Some_0 <= g_cur + self.cost_at(neighs@[t]))) by {
                                    if t < k {
                                        self.lemma_idx_in_range(neighs@[t]);
                                        assert(gs_pre[self.idx_of(neighs@[t])] is Some
                                            ==> gs@[self.idx_of(neighs@[t])] is Some
                                            && gs@[self.idx_of(neighs@[t])]->Some_0
                                            <= gs_pre[self.idx_of(neighs@[t])]->Some_0);
                                    } else {
                                        assert(neighs@[t] == nb);
                                    }
                                }
                            }
                                                        k += 1;
                        }
                        proof {
                            lemma_count_false_update(expanded@, idx as int);
                        }
                        expanded[idx] = true;
                        proof {
                            reveal(fringe_ok);
                            reveal(opt_ok);
                            reveal(cover_ok);
                            reveal(cover_except);
                            let ghost exp_new = expanded@;
                            assert(exp_new[idx as int]);
                            assert(expanded_discovered(gs@, exp_new));
                            assert forall|u: int, w: int|
                                #![trigger exp_new[u], exp_new[w]]
                                0 <= u < n && 0 <= w < n && exp_new[u] && !exp_new[w]
                                    && loc_adjacent(
                                    self.cell_of(u),
                                    self.cell_of(w),
                                ) implies (gs@[u]->Some_0 + self.cost_at(self.cell_of(w))
                                > u64::MAX || (gs@[w] is Some && gs@[w]->Some_0 <= gs@[u]->Some_0
                                + self.cost_at(self.cell_of(w)))) by {
                                if u == idx as int {
                                    self.lemma_cell_of(w);
                                    assert(self.spec_in_bounds(self.cell_of(w)));
                                    assert(neighs@.contains(self.cell_of(w)));
                                    let t = choose|t: int|
                                        0 <= t < neighs@.len() && neighs@[t] == self.cell_of(w);
                                    assert(self.idx_of(neighs@[t]) == w);
                                    assert(!expanded@[self.idx_of(neighs@[t])]);
                                }
                            }
                            assert(fringe_ok(*self, gs@, exp_new));
                            assert forall|u: int, q: Seq<Location>|
                                0 <= u < n && exp_new[u] && #[trigger] grid_path(
                                    *self,
                                    q,
                                    start,
                                    self.cell_of(u),
                                ) && spec_path_cost(*self, q) + manhattan(self.cell_of(u), goal)
                                    <= u64::MAX implies gs@[u]->Some_0 <= spec_path_cost(
                                *self,
                                q,
                            ) by {
                                if u == idx as int {
                                    assert(self.cell_of(u) == cur_loc);
                                    assert(grid_path(*self, q, start, cur_loc));
                                }
                            }
                            assert(opt_ok(*self, gs@, exp_new, start, goal));
                            assert forall|w: int|
                                0 <= w < n && (#[trigger] gs@[w]) is Some && !exp_new[w] implies (
                            gs@[w]->Some_0 + manhattan(self.cell_of(w), goal) > u64::MAX || exists|
                                e: (u64, u64),
                            |
                                #[trigger] pq_items(frontier).count(e) > 0 && e.1 as int == w
                                    && e.0 <= gs@[w]->Some_0 + manhattan(
                                    self.cell_of(w),
                                    goal,
                                )) by {
                                assert(w != idx as int);
                            }
                            assert(cover_ok(*self, pq_items(frontier), gs@, exp_new, goal));
                        }
                    }
                },
            }
        }
    }
}

} // verus!
