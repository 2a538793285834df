use vstd::prelude::*;
use crate::base_map::{BaseMap, on_map};
use crate::grid::{cell_index, lemma_cell_index_bounds, lemma_cell_index_injective};
use crate::irect::Point;

verus! {

/// `(b, d)` is among the successors of `a`: one may step from `a` to `b` at cost `d`.
pub open spec fn is_edge<M: BaseMap>(map: &M, a: Point, b: Point, d: u64) -> bool {
    exists|k: int|
        0 <= k < map.spec_successors(a).len() && #[trigger] map.spec_successors(a)[k] == (b, d)
}

/// `path` lists a walk from `from` to `to` backwards, target first, each cell
/// with the cost of the walk up to it: the source comes last at cost 0 and each
/// cost exceeds the next one by the cost of the step between the two cells.
pub open spec fn is_path<M: BaseMap>(
    map: &M,
    path: Seq<(Point, u64)>,
    from: Point,
    to: Point,
) -> bool {
    &&& path.len() >= 1
    &&& path[0].0 == to
    &&& path.last().0 == from
    &&& path.last().1 == 0
    &&& forall|i: int|
        0 <= i < path.len() - 1 ==> path[i + 1].1 <= (#[trigger] path[i]).1 && is_edge(
            map,
            path[i + 1].0,
            path[i].0,
            (path[i].1 - path[i + 1].1) as u64,
        )
}

/// The entry of a row-major per-cell table `s` of width `w` at `p`.
pub open spec fn cell<T>(s: Seq<T>, w: int, p: Point) -> T {
    s[cell_index(w, p.x as int, p.y as int)]
}

pub open spec fn seq_sum(s: Seq<u64>) -> int
    decreases s.len(),
{
    if s.len() == 0 {
        0
    } else {
        seq_sum(s.drop_last()) + s.last()
    }
}

proof fn lemma_sum_nonneg(s: Seq<u64>)
    ensures
        seq_sum(s) >= 0,
    decreases s.len(),
{
    if s.len() > 0 {
        lemma_sum_nonneg(s.drop_last());
    }
}

proof fn lemma_sum_update(s: Seq<u64>, i: int, v: u64)
    requires
        0 <= i < s.len(),
    ensures
        seq_sum(s.update(i, v)) == seq_sum(s) - s[i] + v,
    decreases s.len(),
{
    let t = s.update(i, v);
    if i == s.len() - 1 {
        assert(t.drop_last() =~= s.drop_last());
    } else {
        lemma_sum_update(s.drop_last(), i, v);
        assert(t.drop_last() =~= s.drop_last().update(i, v));
    }
}

/// The row-major position of `p` on a `w` by `h` map.
fn cell_idx(w: i32, h: i32, p: Point) -> (r: usize)
    requires
        0 <= p.x < w,
        0 <= p.y < h,
        w * h <= usize::MAX,
    ensures
        r == cell_index(w as int, p.x as int, p.y as int),
        r < w * h,
{
    proof {
        lemma_cell_index_bounds(w as int, h as int, p.x as int, p.y as int);
        assert(0 <= (p.y as int) * (w as int) <= (p.y as int) * (w as int) + (p.x as int));
    }
    (p.y as usize) * (w as usize) + (p.x as usize)
}

/// A cell waiting to be expanded, with its estimated total cost.
#[derive(Clone, Copy)]
struct Step {
    priority: u64,
    node: Point,
}

/// The state of an A* search, kept between searches so that its storage is
/// reused: the open list, and for each cell its best known cost, the cell it
/// is reached from and the cost of that last step.
pub struct AStarPath {
    to_see: Vec<Step>,
    cost: Vec<u64>,
    pred: Vec<Point>,
    edge: Vec<u64>,
    path: Vec<(Point, u64)>,
}

/// Cost-table entries at `u64::MAX` mark cells not reached yet.
spec fn tree_ok<M: BaseMap>(
    map: &M,
    cost: Seq<u64>,
    pred: Seq<Point>,
    edge: Seq<u64>,
    from: Point,
) -> bool {
    let size = map.spec_size();
    let w = size.0;
    &&& cost.len() == size.0 * size.1
    &&& pred.len() == cost.len()
    &&& edge.len() == cost.len()
    &&& cell(cost, w, from) == 0
    &&& forall|p: Point|
        on_map(size, p) && #[trigger] cell(cost, w, p) < u64::MAX && p != from ==> {
            let q = cell(pred, w, p);
            &&& on_map(size, q)
            &&& cell(cost, w, q) + cell(edge, w, p) <= cell(cost, w, p)
            &&& is_edge(map, q, p, cell(edge, w, p))
        }
}

/// `a` comes before `b` by known cost, then by the time of the last update.
spec fn lex_below(cost: Seq<u64>, stamp: Seq<nat>, w: int, a: Point, b: Point) -> bool {
    cell(cost, w, a) < cell(cost, w, b) || (cell(cost, w, a) == cell(cost, w, b) && cell(stamp, w, a) < cell(
        stamp,
        w,
        b,
    ))
}

/// `a + b`, capped at `u64::MAX`.
pub open spec fn sat_add(a: int, b: int) -> int {
    if a + b <= u64::MAX {
        a + b
    } else {
        u64::MAX as int
    }
}

/// Each step from `p` leads onto the map and, where its cost can be added
/// to that of `p`, to a cell known at no more than that sum.
spec fn relaxed<M: BaseMap>(map: &M, cost: Seq<u64>, p: Point) -> bool {
    let w = map.spec_size().0;
    let succ = map.spec_successors(p);
    forall|k: int|
        0 <= k < succ.len() ==> on_map(map.spec_size(), (#[trigger] succ[k]).0) && (succ[k].1
            <= u64::MAX - cell(cost, w, p) ==> cell(cost, w, succ[k].0) <= cell(cost, w, p)
            + succ[k].1)
}

/// `p` waits in the open list with a priority no worse than its current cost
/// plus the heuristic, so it will be expanded again.
spec fn pending<M: BaseMap>(map: &M, to_see: Seq<Step>, cost: Seq<u64>, p: Point, to: Point) -> bool {
    exists|j: int|
        0 <= j < to_see.len() && (#[trigger] to_see[j]).node == p && to_see[j].priority <= sat_add(
            cell(cost, map.spec_size().0, p) as int,
            map.spec_distance(p, to) as int,
        )
}

/// Every reached cell but `skip` has had its steps relaxed at its current
/// cost or is pending.
spec fn frontier_ok<M: BaseMap>(
    map: &M,
    to_see: Seq<Step>,
    cost: Seq<u64>,
    to: Point,
    skip: Option<Point>,
) -> bool {
    forall|p: Point|
        on_map(map.spec_size(), p) && #[trigger] cell(cost, map.spec_size().0, p) < u64::MAX && skip
            != Some(p) ==> relaxed(map, cost, p) || pending(map, to_see, cost, p, to)
}

/// Following the recorded steps back from any reached cell strictly lowers
/// its cost, or keeps it and lowers the time of the last update.
spec fn ranked(
    size: (int, int),
    cost: Seq<u64>,
    pred: Seq<Point>,
    stamp: Seq<nat>,
    from: Point,
) -> bool {
    let w = size.0;
    &&& stamp.len() == cost.len()
    &&& forall|p: Point|
        on_map(size, p) && #[trigger] cell(cost, w, p) < u64::MAX && p != from ==> {
            let q = cell(pred, w, p);
            ||| cell(cost, w, q) < cell(cost, w, p)
            ||| (cell(cost, w, q) == cell(cost, w, p) && cell(stamp, w, q) < cell(stamp, w, p))
        }
}

/// Every cell of a walk from `from` is known at no more than its cost along
/// the walk, once every reached cell has been relaxed.
proof fn lemma_walk_costs<M: BaseMap>(
    map: &M,
    cost: Seq<u64>,
    path: Seq<(Point, u64)>,
    from: Point,
    to: Point,
    i: int,
)
    requires
        is_path(map, path, from, to),
        on_map(map.spec_size(), from),
        cell(cost, map.spec_size().0, from) == 0,
        cost.len() == map.spec_size().0 * map.spec_size().1,
        path[0].1 < u64::MAX,
        forall|p: Point|
            on_map(map.spec_size(), p) && #[trigger] cell(cost, map.spec_size().0, p) < u64::MAX
                ==> relaxed(map, cost, p),
        0 <= i < path.len(),
    ensures
        on_map(map.spec_size(), path[i].0),
        cell(cost, map.spec_size().0, path[i].0) <= path[i].1,
        path[i].1 <= path[0].1,
    decreases path.len() - i,
{
    let w = map.spec_size().0;
    lemma_path_costs_fall(map, path, from, to, i);
    if i < path.len() - 1 {
        lemma_walk_costs(map, cost, path, from, to, i + 1);
        let a = path[i + 1].0;
        let d = (path[i].1 - path[i + 1].1) as u64;
        assert(is_edge(map, a, path[i].0, d));
        let k = choose|k: int|
            0 <= k < map.spec_successors(a).len() && #[trigger] map.spec_successors(a)[k] == (
                path[i].0,
                d,
            );
        assert(cell(cost, w, a) < u64::MAX);
        assert(relaxed(map, cost, a));
        assert(on_map(map.spec_size(), map.spec_successors(a)[k].0));
    }
}

/// Costs along a path never exceed the target's.
proof fn lemma_path_costs_fall<M: BaseMap>(
    map: &M,
    path: Seq<(Point, u64)>,
    from: Point,
    to: Point,
    i: int,
)
    requires
        is_path(map, path, from, to),
        0 <= i < path.len(),
    ensures
        path[i].1 <= path[0].1,
    decreases i,
{
    if i > 0 {
        lemma_path_costs_fall(map, path, from, to, i - 1);
        assert(path[i].1 <= path[i - 1].1);
    }
}

/// The heuristic never overestimates: from any cell, it is at most the cost
/// of any walk from there to `to`.
pub open spec fn admissible<M: BaseMap>(map: &M, to: Point) -> bool {
    forall|n: Point, q: Seq<(Point, u64)>|
        on_map(map.spec_size(), n) && #[trigger] is_path(map, q, n, to) ==> map.spec_distance(n, to) <= q[0].1
}

/// Steps from cells on the map stay on it, the heuristic is 0 at `to`, and
/// no step lowers the heuristic by more than its own cost.
pub open spec fn consistent<M: BaseMap>(map: &M, to: Point) -> bool {
    &&& map.spec_distance(to, to) == 0
    &&& forall|a: Point, k: int|
        on_map(map.spec_size(), a) && 0 <= k < map.spec_successors(a).len() ==> {
            let e = #[trigger] map.spec_successors(a)[k];
            &&& on_map(map.spec_size(), e.0)
            &&& map.spec_distance(a, to) <= e.1 + map.spec_distance(e.0, to)
        }
}

proof fn lemma_path_on_map<M: BaseMap>(map: &M, q: Seq<(Point, u64)>, n: Point, to: Point, i: int)
    requires
        consistent(map, to),
        on_map(map.spec_size(), n),
        is_path(map, q, n, to),
        0 <= i < q.len(),
    ensures
        on_map(map.spec_size(), q[i].0),
    decreases q.len() - i,
{
    if i < q.len() - 1 {
        lemma_path_on_map(map, q, n, to, i + 1);
        let d = (q[i].1 - q[i + 1].1) as u64;
        assert(q[i + 1].1 <= q[i].1);
        assert(is_edge(map, q[i + 1].0, q[i].0, d));
        let k = choose|k: int|
            0 <= k < map.spec_successors(q[i + 1].0).len() && #[trigger] map.spec_successors(q[i + 1].0)[k]
                == (q[i].0, d);
    }
}

proof fn lemma_path_heuristic<M: BaseMap>(map: &M, q: Seq<(Point, u64)>, n: Point, to: Point, i: int)
    requires
        consistent(map, to),
        on_map(map.spec_size(), n),
        is_path(map, q, n, to),
        0 <= i < q.len(),
    ensures
        map.spec_distance(q[i].0, to) <= q[0].1 - q[i].1,
    decreases i,
{
    if i > 0 {
        lemma_path_heuristic(map, q, n, to, i - 1);
        lemma_path_on_map(map, q, n, to, i);
        let d = (q[i - 1].1 - q[i].1) as u64;
        assert(q[i].1 <= q[i - 1].1);
        assert(is_edge(map, q[i].0, q[i - 1].0, d));
        let k = choose|k: int|
            0 <= k < map.spec_successors(q[i].0).len() && #[trigger] map.spec_successors(q[i].0)[k]
                == (q[i - 1].0, d);
        assert(map.spec_successors(q[i].0)[k] == (q[i - 1].0, d));
    }
}

/// A consistent heuristic never overestimates.
pub proof fn lemma_consistent_admissible<M: BaseMap>(map: &M, to: Point)
    requires
        consistent(map, to),
    ensures
        admissible(map, to),
{
    assert forall|n: Point, q: Seq<(Point, u64)>|
        on_map(map.spec_size(), n) && #[trigger] is_path(map, q, n, to) implies map.spec_distance(n, to) <= q[0].1 by {
        lemma_path_heuristic(map, q, n, to, q.len() - 1);
    }
}

/// The part of walk `q` from its cell `i` on, with costs counted from there.
spec fn suffix(q: Seq<(Point, u64)>, i: int) -> Seq<(Point, u64)> {
    q.subrange(0, i + 1).map_values(|e: (Point, u64)| (e.0, (e.1 - q[i].1) as u64))
}

proof fn lemma_suffix_is_path<M: BaseMap>(map: &M, q: Seq<(Point, u64)>, from: Point, to: Point, i: int)
    requires
        is_path(map, q, from, to),
        0 <= i < q.len(),
    ensures
        is_path(map, suffix(q, i), q[i].0, to),
        suffix(q, i)[0].1 == q[0].1 - q[i].1,
{
    let s = suffix(q, i);
    assert forall|k: int| 0 <= k <= i implies q[i].1 <= #[trigger] q[k].1 by {
        lemma_costs_fall_between(map, q, from, to, k, i);
    }
    assert forall|k: int| 0 <= k < s.len() - 1 implies s[k + 1].1 <= (#[trigger] s[k]).1 && is_edge(
        map,
        s[k + 1].0,
        s[k].0,
        (s[k].1 - s[k + 1].1) as u64,
    ) by {
        assert(q[k + 1].1 <= q[k].1);
        assert(q[i].1 <= q[k + 1].1);
        assert((s[k].1 - s[k + 1].1) as u64 == (q[k].1 - q[k + 1].1) as u64);
    }
}

proof fn lemma_costs_fall_between<M: BaseMap>(
    map: &M,
    q: Seq<(Point, u64)>,
    from: Point,
    to: Point,
    k: int,
    i: int,
)
    requires
        is_path(map, q, from, to),
        0 <= k <= i < q.len(),
    ensures
        q[i].1 <= q[k].1,
    decreases i - k,
{
    if k < i {
        lemma_costs_fall_between(map, q, from, to, k + 1, i);
        assert(q[k + 1].1 <= q[k].1);
    }
}

/// While every reached cell is relaxed or pending and the target is
/// pending once reached, some open entry has priority at most the cost of
/// any walk to the target that passes through cell `i` of the walk no
/// cheaper than already known.
proof fn lemma_open_entry_bound<M: BaseMap>(
    map: &M,
    open: Seq<Step>,
    cost: Seq<u64>,
    q: Seq<(Point, u64)>,
    from: Point,
    to: Point,
    i: int,
)
    requires
        admissible(map, to),
        is_path(map, q, from, to),
        frontier_ok(map, open, cost, to, None),
        cell(cost, map.spec_size().0, to) < u64::MAX ==> pending(map, open, cost, to, to),
        open.len() > 0,
        0 <= i < q.len(),
        on_map(map.spec_size(), q[i].0),
        cell(cost, map.spec_size().0, q[i].0) <= q[i].1,
    ensures
        exists|j: int| 0 <= j < open.len() && (#[trigger] open[j]).priority <= q[0].1,
    decreases i,
{
    let w = map.spec_size().0;
    lemma_costs_fall_between(map, q, from, to, 0, i);
    if q[0].1 == u64::MAX {
        assert(open[0].priority <= q[0].1);
        return;
    }
    let a = q[i].0;
    assert(cell(cost, w, a) < u64::MAX);
    lemma_suffix_is_path(map, q, from, to, i);
    assert(map.spec_distance(a, to) <= q[0].1 - q[i].1);
    if i == 0 {
        let z = seq![(to, 0u64)];
        assert(is_path(map, z, to, to));
        assert(map.spec_distance(to, to) == 0);
        assert(pending(map, open, cost, to, to));
        let j = choose|j: int|
            0 <= j < open.len() && (#[trigger] open[j]).node == to && open[j].priority <= sat_add(
                cell(cost, w, to) as int,
                map.spec_distance(to, to) as int,
            );
        assert(open[j].priority <= q[0].1);
    } else if pending(map, open, cost, a, to) {
        let j = choose|j: int|
            0 <= j < open.len() && (#[trigger] open[j]).node == a && open[j].priority <= sat_add(
                cell(cost, w, a) as int,
                map.spec_distance(a, to) as int,
            );
        assert(open[j].priority <= q[0].1);
    } else {
        assert(relaxed(map, cost, a));
        let d = (q[i - 1].1 - q[i].1) as u64;
        assert(q[i].1 <= q[i - 1].1);
        assert(is_edge(map, a, q[i - 1].0, d));
        let k = choose|k: int|
            0 <= k < map.spec_successors(a).len() && #[trigger] map.spec_successors(a)[k] == (
                q[i - 1].0,
                d,
            );
        assert(map.spec_successors(a)[k].0 == q[i - 1].0);
        lemma_open_entry_bound(map, open, cost, q, from, to, i - 1);
    }
}

/// The facts that hold between the steps of a search.
spec fn search_ok<M: BaseMap>(
    map: &M,
    from: Point,
    to: Point,
    to_see: Seq<Step>,
    cost: Seq<u64>,
    pred: Seq<Point>,
    edge: Seq<u64>,
    stamp: Seq<nat>,
    clock: nat,
) -> bool {
    let size = map.spec_size();
    let w = size.0;
    &&& tree_ok(map, cost, pred, edge, from)
    &&& ranked(size, cost, pred, stamp, from)
    &&& forall|j: int| 0 <= j < stamp.len() ==> stamp[j] < clock
    &&& forall|j: int|
        0 <= j < to_see.len() ==> on_map(size, (#[trigger] to_see[j]).node) && cell(
            cost,
            w,
            to_see[j].node,
        ) < u64::MAX && to_see[j].priority >= cell(cost, w, to_see[j].node)
    &&& cell(cost, w, to) < u64::MAX ==> pending(map, to_see, cost, to, to)
}

/// Removing an open entry keeps a cell pending unless that entry was what
/// kept it pending.
proof fn lemma_pending_after_remove<M: BaseMap>(
    map: &M,
    q: Seq<Step>,
    b: int,
    cost: Seq<u64>,
    p: Point,
    to: Point,
)
    requires
        pending(map, q, cost, p, to),
        0 <= b < q.len(),
        q[b].node != p || q[b].priority > sat_add(
            cell(cost, map.spec_size().0, p) as int,
            map.spec_distance(p, to) as int,
        ),
    ensures
        pending(map, q.remove(b), cost, p, to),
{
    let w = map.spec_size().0;
    let j = choose|j: int|
        0 <= j < q.len() && (#[trigger] q[j]).node == p && q[j].priority <= sat_add(
            cell(cost, w, p) as int,
            map.spec_distance(p, to) as int,
        );
    if j < b {
        assert(q.remove(b)[j] == q[j]);
    } else {
        assert(j != b);
        assert(q.remove(b)[j - 1] == q[j]);
    }
}

/// Taking entry `b` for cell `u` off the open list keeps every other cell
/// relaxed or pending, and `u` too where the entry was stale.
proof fn lemma_pop_frontier<M: BaseMap>(
    map: &M,
    q: Seq<Step>,
    b: int,
    cost: Seq<u64>,
    to: Point,
    u: Point,
)
    requires
        frontier_ok(map, q, cost, to, None),
        0 <= b < q.len(),
        q[b].node == u,
    ensures
        frontier_ok(map, q.remove(b), cost, to, Some(u)),
        q[b].priority > sat_add(
            cell(cost, map.spec_size().0, u) as int,
            map.spec_distance(u, to) as int,
        ) ==> frontier_ok(map, q.remove(b), cost, to, None),
{
    let w = map.spec_size().0;
    assert forall|p: Point|
        on_map(map.spec_size(), p) && #[trigger] cell(cost, w, p) < u64::MAX && Some(u) != Some(p)
        implies relaxed(map, cost, p) || pending(map, q.remove(b), cost, p, to) by {
        if !relaxed(map, cost, p) {
            lemma_pending_after_remove(map, q, b, cost, p, to);
        }
    }
    if q[b].priority > sat_add(cell(cost, w, u) as int, map.spec_distance(u, to) as int) {
        assert forall|p: Point|
            on_map(map.spec_size(), p) && #[trigger] cell(cost, w, p) < u64::MAX implies relaxed(
            map,
            cost,
            p,
        ) || pending(map, q.remove(b), cost, p, to) by {
            if !relaxed(map, cost, p) {
                lemma_pending_after_remove(map, q, b, cost, p, to);
            }
        }
    }
}

impl AStarPath {    pub fn new() -> (r: AStarPath)
        ensures
            r.spec_result().len() == 0,
    {
        AStarPath {
            to_see: Vec::new(),
            cost: Vec::new(),
            pred: Vec::new(),
            edge: Vec::new(),
            path: Vec::new(),
        }
    }

    /// The path found by the last search.
    pub closed spec fn spec_result(&self) -> Seq<(Point, u64)> {
        self.path@
    }

    /// Searches for a cheapest walk from `from` to `to`, always expanding the
    /// open cell of least known cost plus `map.distance` to the target, the
    /// earliest added among equals. Afterwards the result is a walk from
    /// `from` to `to`, listed target first with the cost of each prefix, or
    /// empty; it is empty only where no walk costing less than `u64::MAX`
    /// leads there.
    #[verifier::rlimit(100)]
    pub fn compute<M: BaseMap>(&mut self, map: &M, from: Point, to: Point)
        requires
            map.map_ok(),
            on_map(map.spec_size(), from),
            on_map(map.spec_size(), to),
            map.spec_size().0 * map.spec_size().1 <= usize::MAX,
        ensures
            final(self).spec_result().len() > 0 ==> is_path(map, final(self).spec_result(), from, to),
            forall|i: int, j: int|
                0 <= i < j < final(self).spec_result().len() ==> final(self).spec_result()[i].0
                    != final(self).spec_result()[j].0,
            (exists|p: Seq<(Point, u64)>| #[trigger] is_path(map, p, from, to) && p[0].1 < u64::MAX)
                ==> final(self).spec_result().len() > 0,
            admissible(map, to) && final(self).spec_result().len() > 0 ==> forall|p: Seq<(Point, u64)>|
                #[trigger] is_path(map, p, from, to) ==> final(self).spec_result()[0].1 <= p[0].1,
    {
        let (w, h) = map.size();
        let ghost size = map.spec_size();
        let ghost wi = size.0;
        let n = (w as usize) * (h as usize);
        self.to_see.clear();
        self.path.clear();
        self.cost.clear();
        self.pred.clear();
        self.edge.clear();
        let mut i: usize = 0;
        while i < n
            invariant
                i <= n,
                self.path@.len() == 0,
                self.to_see@.len() == 0,
                self.cost@.len() == i,
                self.pred@.len() == i,
                self.edge@.len() == i,
                forall|j: int| 0 <= j < i ==> self.cost@[j] == u64::MAX,
                forall|j: int| 0 <= j < i ==> self.pred@[j] == from,
            decreases n - i,
        {
            self.cost.push(u64::MAX);
            self.pred.push(from);
            self.edge.push(0);
            i += 1;
        }
        let mut stamp: Ghost<Seq<nat>> = Ghost(Seq::new(n as nat, |j: int| 0nat));
        let mut clock: Ghost<nat> = Ghost(1);
        proof {
            lemma_cell_index_bounds(size.0, size.1, from.x as int, from.y as int);
        }
        let fi = cell_idx(w, h, from);
        self.cost.set(fi, 0);
        self.to_see.push(Step { priority: 0, node: from });
        proof {
            lemma_sum_nonneg(self.cost@);
            assert forall|p: Point|
                on_map(size, p) && #[trigger] cell(self.cost@, wi, p) < u64::MAX && p != from
                implies false by {
                lemma_cell_index_bounds(size.0, size.1, p.x as int, p.y as int);
                if cell_index(wi, p.x as int, p.y as int) == fi {
                    lemma_cell_index_injective(size.0, size.1, p.x as int, p.y as int, from.x as int, from.y as int);
                }
            }
            assert(self.to_see@[0].node == from);
            assert(pending(map, self.to_see@, self.cost@, from, to));
            assert(cell(self.cost@, wi, to) < u64::MAX ==> to == from);
        }
        let mut reached = false;
        let ghost mut pr_to: u64 = 0;
        while self.to_see.len() > 0
            invariant_except_break
                !reached,
                search_ok(map, from, to, self.to_see@, self.cost@, self.pred@, self.edge@, stamp@, clock@),
                frontier_ok(map, self.to_see@, self.cost@, to, None),
            invariant
                map.map_ok(),
                size == map.spec_size(),
                wi == size.0,
                w == size.0,
                h == size.1,
                on_map(size, from),
                on_map(size, to),
                n == size.0 * size.1,
                size.0 * size.1 <= usize::MAX,
                self.path@.len() == 0,
                seq_sum(self.cost@) >= 0,
            ensures
                self.path@.len() == 0,
                tree_ok(map, self.cost@, self.pred@, self.edge@, from),
                ranked(size, self.cost@, self.pred@, stamp@, from),
                !reached ==> frontier_ok(map, self.to_see@, self.cost@, to, None) && self.to_see@.len() == 0,
                !reached ==> (cell(self.cost@, wi, to) < u64::MAX ==> pending(map, self.to_see@, self.cost@, to, to)),
                reached ==> cell(self.cost@, wi, to) <= pr_to,
                reached ==> cell(self.cost@, wi, to) < u64::MAX,
                reached && admissible(map, to) ==> forall|q: Seq<(Point, u64)>|
                    #[trigger] is_path(map, q, from, to) ==> pr_to <= q[0].1,
            decreases seq_sum(self.cost@), self.to_see@.len(),
        {
            let ghost q0 = self.to_see@;
            let (step, best) = self.pop_min();
            let u = step.node;
            if u == to {
                proof {
                    pr_to = step.priority;
                    assert forall|q: Seq<(Point, u64)>|
                        admissible(map, to) && #[trigger] is_path(map, q, from, to) implies step.priority <= q[0].1 by {
                        let last = q.len() - 1;
                        lemma_open_entry_bound(map, q0, self.cost@, q, from, to, last);
                        let jj = choose|jj: int| 0 <= jj < q0.len() && (#[trigger] q0[jj]).priority <= q[0].1;
                    }
                }
                reached = true;
                break;
            }
            proof {
                lemma_cell_index_bounds(size.0, size.1, u.x as int, u.y as int);
                lemma_pop_frontier(map, q0, best as int, self.cost@, to, u);
                assert(cell(self.cost@, wi, to) < u64::MAX ==> pending(map, self.to_see@, self.cost@, to, to)) by {
                    if cell(self.cost@, wi, to) < u64::MAX {
                        lemma_pending_after_remove(map, q0, best as int, self.cost@, to, to);
                    }
                }
                assert forall|j: int| 0 <= j < self.to_see@.len() implies on_map(size, (#[trigger] self.to_see@[j]).node)
                    && cell(self.cost@, wi, self.to_see@[j].node) < u64::MAX
                    && self.to_see@[j].priority >= cell(self.cost@, wi, self.to_see@[j].node) by {
                    if j >= best {
                        assert(self.to_see@[j] == q0[j + 1]);
                    } else {
                        assert(self.to_see@[j] == q0[j]);
                    }
                }
            }
            let ui = cell_idx(w, h, u);
            let c = self.cost[ui];
            let h_u = map.distance(u, to);
            let bound = if c <= u64::MAX - h_u { c + h_u } else { u64::MAX };
            if step.priority > bound {
                continue;
            }
            self.relax_from(map, from, to, u, &mut stamp, &mut clock);
            proof {
                lemma_sum_nonneg(self.cost@);
            }
        }
        proof {
            if !reached {
                assert forall|p: Point|
                    on_map(size, p) && #[trigger] cell(self.cost@, wi, p) < u64::MAX implies relaxed(map, self.cost@, p) by {
                    if !relaxed(map, self.cost@, p) {
                        assert(pending(map, self.to_see@, self.cost@, p, to));
                    }
                }
                if cell(self.cost@, wi, to) < u64::MAX {
                    assert(pending(map, self.to_see@, self.cost@, to, to));
                }
                if exists|p: Seq<(Point, u64)>| #[trigger] is_path(map, p, from, to) && p[0].1 < u64::MAX {
                    let p = choose|p: Seq<(Point, u64)>| #[trigger] is_path(map, p, from, to) && p[0].1 < u64::MAX;
                    lemma_walk_costs(map, self.cost@, p, from, to, 0);
                }
            }
        }
        let ghost cost_to = cell(self.cost@, wi, to);
        self.reconstruct(map, from, to, n, stamp);
        proof {
            if self.path@.len() > 0 && !reached {
                assert(cell(self.cost@, wi, to) < u64::MAX);
                assert(pending(map, self.to_see@, self.cost@, to, to));
            }
        }
    }

    /// Removes and returns the open entry of least priority, the earliest
    /// added among equals.
    fn pop_min(&mut self) -> (r: (Step, usize))
        requires
            old(self).to_see@.len() > 0,
        ensures
            r.1 < old(self).to_see@.len(),
            r.0 == old(self).to_see@[r.1 as int],
            final(self).to_see@ == old(self).to_see@.remove(r.1 as int),
            forall|j: int| 0 <= j < old(self).to_see@.len() ==> r.0.priority <= (#[trigger] old(self).to_see@[j]).priority,
            forall|j: int| 0 <= j < r.1 ==> r.0.priority < (#[trigger] old(self).to_see@[j]).priority,
            final(self).cost == old(self).cost,
            final(self).pred == old(self).pred,
            final(self).edge == old(self).edge,
            final(self).path == old(self).path,
    {
        let mut best: usize = 0;
        let mut j: usize = 1;
        while j < self.to_see.len()
            invariant
                best < self.to_see@.len(),
                1 <= j <= self.to_see@.len(),
                forall|jj: int| 0 <= jj < j ==> self.to_see@[best as int].priority <= #[trigger] self.to_see@[jj].priority,
                forall|jj: int| 0 <= jj < best ==> self.to_see@[best as int].priority < #[trigger] self.to_see@[jj].priority,
            decreases self.to_see@.len() - j,
        {
            if self.to_see[j].priority < self.to_see[best].priority {
                best = j;
            }
            j += 1;
        }
        let step = self.to_see.remove(best);
        (step, best)
    }

    /// Relaxes every step out of `u`: a neighbour reached more cheaply
    /// through `u` records `u` as its predecessor and is put on the open list.
    fn relax_from<M: BaseMap>(
        &mut self,
        map: &M,
        from: Point,
        to: Point,
        u: Point,
        stamp: &mut Ghost<Seq<nat>>,
        clock: &mut Ghost<nat>,
    )
        requires
            map.map_ok(),
            on_map(map.spec_size(), from),
            on_map(map.spec_size(), to),
            on_map(map.spec_size(), u),
            map.spec_size().0 * map.spec_size().1 <= usize::MAX,
            cell(old(self).cost@, map.spec_size().0, u) < u64::MAX,
            search_ok(map, from, to, old(self).to_see@, old(self).cost@, old(self).pred@, old(self).edge@, old(stamp)@, old(clock)@),
            frontier_ok(map, old(self).to_see@, old(self).cost@, to, Some(u)),
        ensures
            search_ok(map, from, to, final(self).to_see@, final(self).cost@, final(self).pred@, final(self).edge@, final(stamp)@, final(clock)@),
            frontier_ok(map, final(self).to_see@, final(self).cost@, to, None),
            final(self).path == old(self).path,
            seq_sum(final(self).cost@) < seq_sum(old(self).cost@) || (seq_sum(final(self).cost@)
                == seq_sum(old(self).cost@) && final(self).to_see@.len() == old(self).to_see@.len()),
    {
        let (w, h) = map.size();
        let ghost size = map.spec_size();
        let ghost wi = size.0;
        proof {
            lemma_cell_index_bounds(size.0, size.1, u.x as int, u.y as int);
        }
        let ui = cell_idx(w, h, u);
        let c = self.cost[ui];
        let succ = map.successors(u);
        let ghost sum0 = seq_sum(self.cost@);
        let ghost len0 = self.to_see@.len();
        let mut k: usize = 0;
        while k < succ.len()
            invariant
                map.map_ok(),
                size == map.spec_size(),
                wi == size.0,
                w == size.0,
                h == size.1,
                size.0 * size.1 <= usize::MAX,
                on_map(size, from),
                on_map(size, to),
                on_map(size, u),
                ui == cell_index(wi, u.x as int, u.y as int),
                ui < size.0 * size.1,
                c == cell(self.cost@, wi, u),
                c < u64::MAX,
                succ@ == map.spec_successors(u),
                forall|i: int| 0 <= i < succ@.len() ==> on_map(size, #[trigger] succ@[i].0),
                self.path == old(self).path,
                search_ok(map, from, to, self.to_see@, self.cost@, self.pred@, self.edge@, stamp@, clock@),
                frontier_ok(map, self.to_see@, self.cost@, to, Some(u)),
                forall|i: int|
                    0 <= i < k ==> (#[trigger] succ@[i]).1 <= u64::MAX - c ==> cell(
                        self.cost@,
                        wi,
                        succ@[i].0,
                    ) <= c + succ@[i].1,
                seq_sum(self.cost@) <= sum0,
                seq_sum(self.cost@) == sum0 ==> self.to_see@.len() == len0,
            decreases succ@.len() - k,
        {
            let (v, d) = succ[k];
            proof {
                lemma_cell_index_bounds(size.0, size.1, v.x as int, v.y as int);
            }
            let vi = cell_idx(w, h, v);
            if d <= u64::MAX - c && c + d < self.cost[vi] {
                let ghost old_cost = self.cost@;
                let ghost old_pred = self.pred@;
                let ghost old_edge = self.edge@;
                let ghost old_stamp = stamp@;
                let ghost old_clock = clock@;
                let ghost old_q = self.to_see@;
                self.cost.set(vi, c + d);
                self.pred.set(vi, u);
                self.edge.set(vi, d);
                proof {
                    *stamp = Ghost(old_stamp.update(vi as int, old_clock));
                    *clock = Ghost(old_clock + 1);
                    lemma_sum_update(old_cost, vi as int, (c + d) as u64);
                    assert(vi != ui);
                    assert(self.cost@[ui as int] == old_cost[ui as int]);
                    assert(cell(self.cost@, wi, u) == c);
                    assert(is_edge(map, u, v, d)) by {
                        assert(map.spec_successors(u)[k as int] == (v, d));
                    }
                    assert(v != from);
                    assert forall|p: Point|
                        on_map(size, p) && #[trigger] cell(self.cost@, wi, p) < u64::MAX && p != from
                        implies {
                            let q = cell(self.pred@, wi, p);
                            &&& on_map(size, q)
                            &&& cell(self.cost@, wi, q) + cell(self.edge@, wi, p) <= cell(self.cost@, wi, p)
                            &&& is_edge(map, q, p, cell(self.edge@, wi, p))
                            &&& (cell(self.cost@, wi, q) < cell(self.cost@, wi, p)
                                || (cell(self.cost@, wi, q) == cell(self.cost@, wi, p) && cell(stamp@, wi, q) < cell(stamp@, wi, p)))
                        } by {
                        lemma_cell_index_bounds(size.0, size.1, p.x as int, p.y as int);
                        let pi = cell_index(wi, p.x as int, p.y as int);
                        if pi == vi {
                            lemma_cell_index_injective(size.0, size.1, p.x as int, p.y as int, v.x as int, v.y as int);
                            assert(cell(self.pred@, wi, p) == u);
                            assert(cell(self.edge@, wi, p) == d);
                            assert(cell(stamp@, wi, u) == old_stamp[ui as int]);
                        } else {
                            assert(cell(old_cost, wi, p) < u64::MAX);
                            let q = cell(old_pred, wi, p);
                            lemma_cell_index_bounds(size.0, size.1, q.x as int, q.y as int);
                            assert(cell(self.cost@, wi, q) <= cell(old_cost, wi, q));
                            let qi = cell_index(wi, q.x as int, q.y as int);
                            if qi != vi {
                                assert(cell(stamp@, wi, q) == cell(old_stamp, wi, q));
                            }
                        }
                    }
                    assert(cell(self.cost@, wi, from) == 0) by {
                        lemma_cell_index_bounds(size.0, size.1, from.x as int, from.y as int);
                        if cell_index(wi, from.x as int, from.y as int) == vi {
                            lemma_cell_index_injective(size.0, size.1, from.x as int, from.y as int, v.x as int, v.y as int);
                        }
                    }
                }
                let h_v = map.distance(v, to);
                let g = c + d;
                let priority = if g <= u64::MAX - h_v { g + h_v } else { u64::MAX };
                self.to_see.push(Step { priority, node: v });
                proof {
                    assert(self.to_see@[old_q.len() as int] == Step { priority, node: v });
                    assert forall|j: int| 0 <= j < self.to_see@.len() implies on_map(size, (#[trigger] self.to_see@[j]).node)
                        && cell(self.cost@, wi, self.to_see@[j].node) < u64::MAX
                        && self.to_see@[j].priority >= cell(self.cost@, wi, self.to_see@[j].node) by {
                        if j < old_q.len() {
                            assert(self.to_see@[j] == old_q[j]);
                            let m = old_q[j].node;
                            lemma_cell_index_bounds(size.0, size.1, m.x as int, m.y as int);
                            assert(cell(self.cost@, wi, m) <= cell(old_cost, wi, m));
                        }
                    }
                    assert forall|p: Point|
                        on_map(size, p) && #[trigger] cell(self.cost@, wi, p) < u64::MAX && (Some(u) != Some(p) || p == to)
                        implies pending(map, self.to_see@, self.cost@, p, to) || (p != to && relaxed(map, self.cost@, p)) by {
                        lemma_cell_index_bounds(size.0, size.1, p.x as int, p.y as int);
                        let pi = cell_index(wi, p.x as int, p.y as int);
                        if pi == vi {
                            lemma_cell_index_injective(size.0, size.1, p.x as int, p.y as int, v.x as int, v.y as int);
                            assert(self.to_see@[old_q.len() as int].node == p);
                        } else {
                            assert(cell(self.cost@, wi, p) == cell(old_cost, wi, p));
                            if p != to && relaxed(map, old_cost, p) {
                                let sp = map.spec_successors(p);
                                assert forall|kk: int| 0 <= kk < sp.len() implies on_map(size, (#[trigger] sp[kk]).0)
                                    && (sp[kk].1 <= u64::MAX - cell(self.cost@, wi, p) ==> cell(self.cost@, wi, sp[kk].0)
                                    <= cell(self.cost@, wi, p) + sp[kk].1) by {
                                    let m = sp[kk].0;
                                    lemma_cell_index_bounds(size.0, size.1, m.x as int, m.y as int);
                                    assert(cell(self.cost@, wi, m) <= cell(old_cost, wi, m));
                                }
                                assert(relaxed(map, self.cost@, p));
                            } else {
                                assert(pending(map, old_q, old_cost, p, to));
                                let jj = choose|jj: int|
                                    0 <= jj < old_q.len() && (#[trigger] old_q[jj]).node == p && old_q[jj].priority <= sat_add(
                                        cell(old_cost, wi, p) as int,
                                        map.spec_distance(p, to) as int,
                                    );
                                assert(self.to_see@[jj] == old_q[jj]);
                            }
                        }
                    }
                    assert forall|i: int|
                        0 <= i < k + 1 && (#[trigger] succ@[i]).1 <= u64::MAX - c implies cell(
                            self.cost@,
                            wi,
                            succ@[i].0,
                        ) <= c + succ@[i].1 by {
                        let m = succ@[i].0;
                        lemma_cell_index_bounds(size.0, size.1, m.x as int, m.y as int);
                        assert(cell(self.cost@, wi, m) <= cell(old_cost, wi, m));
                    }
                }
            }
            k += 1;
        }
        proof {
            assert(relaxed(map, self.cost@, u));
        }
    }

    /// Follows the recorded steps back from `to` to `from` and stores the
    /// walk with the cost of each prefix, where `to` has been reached.
    fn reconstruct<M: BaseMap>(&mut self, map: &M, from: Point, to: Point, n: usize, stamp: Ghost<Seq<nat>>)
        requires
            map.map_ok(),
            on_map(map.spec_size(), from),
            on_map(map.spec_size(), to),
            n == map.spec_size().0 * map.spec_size().1,
            map.spec_size().0 * map.spec_size().1 <= usize::MAX,
            old(self).path@.len() == 0,
            tree_ok(map, old(self).cost@, old(self).pred@, old(self).edge@, from),
            ranked(map.spec_size(), old(self).cost@, old(self).pred@, stamp@, from),
        ensures
            final(self).path@.len() > 0 ==> is_path(map, final(self).path@, from, to),
            cell(old(self).cost@, map.spec_size().0, to) < u64::MAX <==> final(self).path@.len() > 0,
            forall|i: int, j: int| 0 <= i < j < final(self).path@.len() ==> final(self).path@[i].0 != final(self).path@[j].0,
            final(self).path@.len() > 0 ==> final(self).path@[0].1 <= cell(old(self).cost@, map.spec_size().0, to),
    {
        let ghost size = map.spec_size();
        let ghost wi = size.0;
        let ghost st = stamp@;
        let (w, h) = map.size();
        proof {
            lemma_cell_index_bounds(size.0, size.1, to.x as int, to.y as int);
        }
        let ti = cell_idx(w, h, to);
        if self.cost[ti] == u64::MAX {
            return;
        }
        let mut nodes: Vec<Point> = Vec::new();
        nodes.push(to);
        let mut cur = to;
        while cur != from
            invariant
                map.map_ok(),
                size == map.spec_size(),
                wi == size.0,
                w == size.0,
                h == size.1,
                size.0 * size.1 <= usize::MAX,
                on_map(size, from),
                on_map(size, cur),
                tree_ok(map, self.cost@, self.pred@, self.edge@, from),
                ranked(size, self.cost@, self.pred@, st, from),
                self.path@.len() == 0,
                cell(self.cost@, wi, cur) < u64::MAX,
                nodes@.len() >= 1,
                nodes@[0] == to,
                nodes@.last() == cur,
                forall|i: int| 0 <= i < nodes@.len() ==> on_map(size, #[trigger] nodes@[i]) && cell(self.cost@, wi, nodes@[i]) < u64::MAX,
                forall|i: int|
                    0 <= i < nodes@.len() - 1 ==> nodes@[i] != from && nodes@[i + 1] == cell(
                        self.pred@,
                        wi,
                        #[trigger] nodes@[i],
                    ),
                forall|i: int, j: int|
                    0 <= i < j < nodes@.len() ==> lex_below(self.cost@, st, wi, #[trigger] nodes@[j], #[trigger] nodes@[i]),
            decreases cell(self.cost@, wi, cur), cell(st, wi, cur),
        {
            proof {
                lemma_cell_index_bounds(size.0, size.1, cur.x as int, cur.y as int);
            }
            let ci = cell_idx(w, h, cur);
            let p = self.pred[ci];
            let ghost before = nodes@;
            nodes.push(p);
            proof {
                assert(nodes@[nodes@.len() - 2] == cur);
                assert(lex_below(self.cost@, st, wi, p, cur));
                assert forall|i: int, j: int|
                    0 <= i < j < nodes@.len() implies lex_below(self.cost@, st, wi, #[trigger] nodes@[j], #[trigger] nodes@[i]) by {
                    if j == nodes@.len() - 1 {
                        if i < before.len() - 1 {
                            assert(lex_below(self.cost@, st, wi, before[before.len() - 1], before[i]));
                        }
                        assert(nodes@[i] == before[i]);
                    } else {
                        assert(nodes@[i] == before[i] && nodes@[j] == before[j]);
                    }
                }
            }
            cur = p;
        }
        let m = nodes.len();
        let mut acc: Vec<u64> = Vec::new();
        let mut total: u64 = 0;
        let mut t: usize = 0;
        while t < m
            invariant
                map.map_ok(),
                size == map.spec_size(),
                wi == size.0,
                w == size.0,
                h == size.1,
                size.0 * size.1 <= usize::MAX,
                on_map(size, from),
                m == nodes@.len(),
                m >= 1,
                nodes@[m - 1] == from,
                tree_ok(map, self.cost@, self.pred@, self.edge@, from),
                forall|i: int| 0 <= i < nodes@.len() ==> on_map(size, #[trigger] nodes@[i]) && cell(self.cost@, wi, nodes@[i]) < u64::MAX,
                forall|i: int|
                    0 <= i < nodes@.len() - 1 ==> nodes@[i] != from && nodes@[i + 1] == cell(
                        self.pred@,
                        wi,
                        #[trigger] nodes@[i],
                    ),
                t <= m,
                acc@.len() == t,
                t > 0 ==> total == acc@[t - 1],
                t > 0 ==> total <= cell(self.cost@, wi, nodes@[m - t]),
                t > 0 ==> acc@[0] == 0,
                t == 0 ==> total == 0,
                forall|i: int|
                    0 < i < t ==> acc@[i] == acc@[i - 1] + cell(self.edge@, wi, #[trigger] nodes@[m - 1 - i]),
            decreases m - t,
        {
            let node = nodes[m - 1 - t];
            if t > 0 {
                proof {
                    let i = m - 1 - t;
                    lemma_cell_index_bounds(size.0, size.1, node.x as int, node.y as int);
                    assert(nodes@[i + 1] == cell(self.pred@, wi, nodes@[i]));
                    assert(cell(self.cost@, wi, nodes@[i]) < u64::MAX);
                    assert(nodes@[i] != from);
                }
                let ni = cell_idx(w, h, node);
                total = total + self.edge[ni];
            }
            acc.push(total);
            t += 1;
        }
        let mut r: usize = 0;
        while r < m
            invariant
                map.map_ok(),
                size == map.spec_size(),
                wi == size.0,
                m == nodes@.len(),
                m == acc@.len(),
                m >= 1,
                nodes@[0] == to,
                nodes@[m - 1] == from,
                acc@[0] == 0,
                tree_ok(map, self.cost@, self.pred@, self.edge@, from),
                forall|i: int|
                    0 <= i < nodes@.len() - 1 ==> nodes@[i] != from && nodes@[i + 1] == cell(
                        self.pred@,
                        wi,
                        #[trigger] nodes@[i],
                    ),
                forall|i: int| 0 <= i < nodes@.len() ==> on_map(size, #[trigger] nodes@[i]) && cell(self.cost@, wi, nodes@[i]) < u64::MAX,
                forall|i: int|
                    0 < i < m ==> acc@[i] == acc@[i - 1] + cell(self.edge@, wi, #[trigger] nodes@[m - 1 - i]),
                r <= m,
                self.path@.len() == r,
                forall|i: int| 0 <= i < r ==> #[trigger] self.path@[i] == (nodes@[i], acc@[m - 1 - i]),
            decreases m - r,
        {
            self.path.push((nodes[r], acc[m - 1 - r]));
            r += 1;
        }
        proof {
            let path = self.path@;
            assert forall|i: int| 0 <= i < path.len() - 1 implies path[i + 1].1 <= (#[trigger] path[i]).1
                && is_edge(map, path[i + 1].0, path[i].0, (path[i].1 - path[i + 1].1) as u64) by {
                let j = m - 1 - i;
                assert(nodes@[m - 1 - j] == nodes@[i]);
                assert(acc@[j] == acc@[j - 1] + cell(self.edge@, wi, nodes@[i]));
                assert(path[i] == (nodes@[i], acc@[j]));
                assert(path[i + 1] == (nodes@[i + 1], acc@[j - 1]));
            }
        }
    }

    /// The path of the last search, target first.
    pub fn result(&self) -> (r: &[(Point, u64)])
        ensures
            r@ == self.spec_result(),
    {
        self.path.as_slice()
    }
}

/// Where no walk leads from `from` to `to`, a search finds nothing.
pub proof fn lemma_unreachable_is_empty<M: BaseMap>(
    map: &M,
    from: Point,
    to: Point,
    result: Seq<(Point, u64)>,
)
    requires
        result.len() > 0 ==> is_path(map, result, from, to),
        forall|p: Seq<(Point, u64)>| !#[trigger] is_path(map, p, from, to),
    ensures
        result.len() == 0,
{
    if result.len() > 0 {
        assert(is_path(map, result, from, to));
    }
}

} // verus!

verus! {

/// Two results of searches between the same cells on the same map, each no
/// dearer than any walk there (as `compute` gives where the heuristic never
/// overestimates), cost the same.
pub proof fn lemma_searches_agree_on_cost<M: BaseMap>(
    map: &M,
    from: Point,
    to: Point,
    first: Seq<(Point, u64)>,
    second: Seq<(Point, u64)>,
)
    requires
        first.len() > 0,
        second.len() > 0,
        is_path(map, first, from, to),
        is_path(map, second, from, to),
        forall|p: Seq<(Point, u64)>| #[trigger] is_path(map, p, from, to) ==> first[0].1 <= p[0].1,
        forall|p: Seq<(Point, u64)>| #[trigger] is_path(map, p, from, to) ==> second[0].1 <= p[0].1,
    ensures
        first[0].1 == second[0].1,
{
    assert(first[0].1 <= second[0].1);
    assert(second[0].1 <= first[0].1);
}

} // verus!
