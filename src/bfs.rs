use vstd::prelude::*;
use vstd::set_lib::{lemma_int_range, lemma_len_subset, set_int_range};
use std::collections::VecDeque;
use crate::grid::{Grid, in_bounds, cell_index, lemma_cell_index_injective, lemma_cell_index_bounds};
use crate::irect::Point;

verus! {

/// The eight neighbour offsets, clockwise from north.
pub open spec fn offset(k: int) -> (int, int) {
    if k == 0 {
        (0, -1)
    } else if k == 1 {
        (1, -1)
    } else if k == 2 {
        (1, 0)
    } else if k == 3 {
        (1, 1)
    } else if k == 4 {
        (0, 1)
    } else if k == 5 {
        (-1, 1)
    } else if k == 6 {
        (-1, 0)
    } else {
        (-1, -1)
    }
}

pub fn offset_at(k: usize) -> (r: (i32, i32))
    requires
        k < 8,
    ensures
        r.0 == offset(k as int).0,
        r.1 == offset(k as int).1,
{
    if k == 0 {
        (0, -1)
    } else if k == 1 {
        (1, -1)
    } else if k == 2 {
        (1, 0)
    } else if k == 3 {
        (1, 1)
    } else if k == 4 {
        (0, 1)
    } else if k == 5 {
        (-1, 1)
    } else if k == 6 {
        (-1, 0)
    } else {
        (-1, -1)
    }
}

/// Two distinct cells that touch by a side or a corner.
pub open spec fn adjacent_cells(a: Point, b: Point) -> bool {
    a != b && -1 <= a.x - b.x <= 1 && -1 <= a.y - b.y <= 1
}

/// Every cell adjacent to `u` is `u` shifted by one of the eight offsets.
pub proof fn lemma_adjacent_is_offset(u: Point, v: Point)
    requires
        adjacent_cells(u, v),
    ensures
        exists|k: int|
            0 <= k < 8 && v.x == u.x + (#[trigger] offset(k)).0 && v.y == u.y + offset(k).1,
{
    let dx = v.x - u.x;
    let dy = v.y - u.y;
    let k: int = if dx == 0 && dy == -1 {
        0
    } else if dx == 1 && dy == -1 {
        1
    } else if dx == 1 && dy == 0 {
        2
    } else if dx == 1 && dy == 1 {
        3
    } else if dx == 0 && dy == 1 {
        4
    } else if dx == -1 && dy == 1 {
        5
    } else if dx == -1 && dy == 0 {
        6
    } else {
        7
    };
    assert(v.x == u.x + offset(k).0 && v.y == u.y + offset(k).1);
}

/// The label grid's value at `p`.
pub open spec fn label(labels: Grid<i32>, p: Point) -> i32 {
    labels.at(p.x as int, p.y as int)
}

/// `p` lies on the grid and may be entered.
pub open spec fn passable(open: Grid<bool>, p: Point) -> bool {
    open.spec_in_bounds(p.x as int, p.y as int) && open.at(p.x as int, p.y as int)
}

/// `path` starts at a source and each later cell is passable and adjacent to
/// the one before it.
pub open spec fn is_walk(open: Grid<bool>, sources: Seq<Point>, path: Seq<Point>) -> bool {
    &&& path.len() >= 1
    &&& sources.contains(path[0])
    &&& forall|i: int|
        1 <= i < path.len() ==> adjacent_cells(path[i - 1], #[trigger] path[i]) && passable(
            open,
            path[i],
        )
}

/// `c` can be reached from some source in at most `k` steps.
pub open spec fn reach(open: Grid<bool>, sources: Seq<Point>, k: nat, c: Point) -> bool {
    exists|path: Seq<Point>|
        #[trigger] is_walk(open, sources, path) && path.len() <= k + 1 && path.last() == c
}

/// A cell adjacent to a reachable one, and passable, is reachable in one more step.
pub proof fn lemma_reach_step(open: Grid<bool>, sources: Seq<Point>, k: nat, u: Point, v: Point)
    requires
        reach(open, sources, k, u),
        adjacent_cells(u, v),
        passable(open, v),
    ensures
        reach(open, sources, k + 1, v),
{
    let path = choose|path: Seq<Point>|
        #[trigger] is_walk(open, sources, path) && path.len() <= k + 1 && path.last() == u;
    let longer = path.push(v);
    assert forall|i: int| 1 <= i < longer.len() implies adjacent_cells(longer[i - 1], #[trigger] longer[i])
        && passable(open, longer[i]) by {
        if i < path.len() {
            assert(longer[i] == path[i] && longer[i - 1] == path[i - 1]);
        }
    }
    assert(longer[0] == path[0]);
    assert(is_walk(open, sources, longer));
}

/// Each cell of a walk is reachable in as many steps as precede it.
pub proof fn lemma_walk_prefix_reach(open: Grid<bool>, sources: Seq<Point>, path: Seq<Point>, i: int)
    requires
        is_walk(open, sources, path),
        0 <= i < path.len(),
    ensures
        reach(open, sources, i as nat, path[i]),
{
    let pre = path.subrange(0, i + 1);
    assert forall|j: int| 1 <= j < pre.len() implies adjacent_cells(pre[j - 1], #[trigger] pre[j])
        && passable(open, pre[j]) by {
        assert(pre[j] == path[j] && pre[j - 1] == path[j - 1]);
    }
    assert(pre[0] == path[0]);
    assert(is_walk(open, sources, pre));
    assert(pre.last() == path[i]);
}

/// A source is reachable in no steps.
pub proof fn lemma_reach_source(open: Grid<bool>, sources: Seq<Point>, j: int)
    requires
        0 <= j < sources.len(),
    ensures
        reach(open, sources, 0, sources[j]),
{
    let path = seq![sources[j]];
    assert(sources.contains(path[0]));
    assert(is_walk(open, sources, path));
}

/// Every passable neighbour of `p` is labelled, at most one more than `p`.
pub open spec fn expanded(labels: Grid<i32>, open: Grid<bool>, p: Point) -> bool {
    forall|v: Point|
        #[trigger] adjacent_cells(p, v) && passable(open, v) ==> 0 <= label(labels, v) <= label(
            labels,
            p,
        ) + 1
}

/// The label field and the passability mask describe the same cells.
pub open spec fn same_shape(labels: Grid<i32>, open: Grid<bool>) -> bool {
    &&& labels.wf()
    &&& open.wf()
    &&& labels.spec_width() == open.spec_width()
    &&& labels.spec_height() == open.spec_height()
}

pub open spec fn cells_in_bounds(g: Grid<bool>, s: Seq<Point>) -> bool {
    forall|j: int| 0 <= j < s.len() ==> g.spec_in_bounds(s[j].x as int, s[j].y as int)
}

pub open spec fn all_unlabelled(labels: Grid<i32>) -> bool {
    forall|i: int| 0 <= i < labels@.len() ==> labels@[i] == -1
}

/// The labels give exact hop distances: a cell is labelled `d >= 0` exactly when
/// it is reachable in `d` steps and in no fewer, and stays `-1` when unreachable.
pub open spec fn exact_distances(labels: Grid<i32>, open: Grid<bool>, sources: Seq<Point>) -> bool {
    &&& forall|p: Point|
        labels.spec_in_bounds(p.x as int, p.y as int) ==> #[trigger] label(labels, p) >= -1
    &&& forall|p: Point|
        labels.spec_in_bounds(p.x as int, p.y as int) && #[trigger] label(labels, p) >= 0 ==> reach(
            open,
            sources,
            label(labels, p) as nat,
            p,
        )
    &&& forall|p: Point, k: nat|
        #[trigger] reach(open, sources, k, p) ==> labels.spec_in_bounds(p.x as int, p.y as int)
            && 0 <= label(labels, p) <= k
}

pub open spec fn queued(q: Seq<(Point, i32)>, p: Point) -> bool {
    exists|i: int| 0 <= i < q.len() && (#[trigger] q[i]).0 == p
}

proof fn lemma_reach_in_bounds(open: Grid<bool>, sources: Seq<Point>, k: nat, c: Point)
    requires
        reach(open, sources, k, c),
        cells_in_bounds(open, sources),
    ensures
        open.spec_in_bounds(c.x as int, c.y as int),
{
    let path = choose|path: Seq<Point>|
        #[trigger] is_walk(open, sources, path) && path.len() <= k + 1 && path.last() == c;
    if path.len() == 1 {
        let j = choose|j: int| 0 <= j < sources.len() && sources[j] == path[0];
    } else {
        assert(passable(open, path[path.len() - 1]));
    }
}

/// Where every labelled cell below `f` has been expanded, every cell reachable in
/// `k < f` steps carries a label of at most `k`.
proof fn lemma_reach_labelled(
    labels: Grid<i32>,
    open: Grid<bool>,
    sources: Seq<Point>,
    done: Set<Point>,
    f: int,
    k: nat,
    c: Point,
)
    requires
        same_shape(labels, open),
        cells_in_bounds(open, sources),
        forall|j: int| 0 <= j < sources.len() ==> label(labels, #[trigger] sources[j]) == 0,
        forall|p: Point|
            #[trigger] done.contains(p) ==> expanded(labels, open, p) && label(labels, p) >= 0,
        forall|p: Point|
            labels.spec_in_bounds(p.x as int, p.y as int) && 0 <= #[trigger] label(labels, p) < f
                ==> done.contains(p),
        reach(open, sources, k, c),
        k < f,
    ensures
        0 <= label(labels, c) <= k,
    decreases k,
{
    let path = choose|path: Seq<Point>|
        #[trigger] is_walk(open, sources, path) && path.len() <= k + 1 && path.last() == c;
    if path.len() == 1 {
        let j = choose|j: int| 0 <= j < sources.len() && sources[j] == path[0];
    } else {
        let prefix = path.drop_last();
        let n = prefix.last();
        assert forall|i: int| 1 <= i < prefix.len() implies adjacent_cells(
            prefix[i - 1],
            #[trigger] prefix[i],
        ) && passable(open, prefix[i]) by {
            assert(prefix[i] == path[i] && prefix[i - 1] == path[i - 1]);
        }
        assert(prefix[0] == path[0]);
        assert(is_walk(open, sources, prefix));
        assert(reach(open, sources, (k - 1) as nat, n));
        lemma_reach_labelled(labels, open, sources, done, f, (k - 1) as nat, n);
        lemma_reach_in_bounds(open, sources, (k - 1) as nat, n);
        assert(done.contains(n));
        assert(adjacent_cells(n, c) && passable(open, c)) by {
            assert(path[path.len() - 1] == c);
            assert(path[path.len() - 2] == n);
        }
    }
}

/// A breadth-first frontier, kept between searches so that its storage is reused.
pub struct BFS {
    frontier: VecDeque<(Point, i32)>,
}

impl BFS {
    pub fn new() -> (r: BFS) {
        BFS { frontier: VecDeque::new() }
    }

    /// Labels every cell with its hop distance from the nearest source, moving
    /// between adjacent passable cells; cells that cannot be reached stay `-1`.
    pub fn search(&mut self, sources: &Vec<Point>, labels: &mut Grid<i32>, open: &Grid<bool>)
        requires
            same_shape(*old(labels), *open),
            old(labels).spec_width() * old(labels).spec_height() <= i32::MAX,
            all_unlabelled(*old(labels)),
            cells_in_bounds(*open, sources@),
        ensures
            same_shape(*final(labels), *open),
            final(labels).spec_width() == old(labels).spec_width(),
            final(labels).spec_height() == old(labels).spec_height(),
            exact_distances(*final(labels), *open, sources@),
    {
        self.run(sources, labels, open, open, false);
    }

    /// Searches as `search` does and stops at the first cell taken from the
    /// frontier that `target` marks, which is then a nearest such cell.
    /// Returns `None` where no reachable cell is marked.
    pub fn search_until(
        &mut self,
        sources: &Vec<Point>,
        labels: &mut Grid<i32>,
        open: &Grid<bool>,
        target: &Grid<bool>,
    ) -> (r: Option<Point>)
        requires
            same_shape(*old(labels), *open),
            same_shape(*old(labels), *target),
            old(labels).spec_width() * old(labels).spec_height() <= i32::MAX,
            all_unlabelled(*old(labels)),
            cells_in_bounds(*open, sources@),
        ensures
            same_shape(*final(labels), *open),
            final(labels).spec_width() == old(labels).spec_width(),
            final(labels).spec_height() == old(labels).spec_height(),
            forall|p: Point|
                final(labels).spec_in_bounds(p.x as int, p.y as int) && #[trigger] label(
                    *final(labels),
                    p,
                ) >= 0 ==> reach(*open, sources@, label(*final(labels), p) as nat, p),
            match r {
                Some(p) => {
                    &&& passable(*target, p)
                    &&& label(*final(labels), p) >= 0
                    &&& reach(*open, sources@, label(*final(labels), p) as nat, p)
                    &&& forall|c: Point, k: nat|
                        #[trigger] reach(*open, sources@, k, c) && passable(*target, c) ==> k
                            >= label(*final(labels), p)
                },
                None => forall|c: Point, k: nat|
                    #[trigger] reach(*open, sources@, k, c) ==> !passable(*target, c),
            },
    {
        self.run(sources, labels, open, target, true)
    }

    fn run(
        &mut self,
        sources: &Vec<Point>,
        labels: &mut Grid<i32>,
        open: &Grid<bool>,
        target: &Grid<bool>,
        stop: bool,
    ) -> (r: Option<Point>)
        requires
            same_shape(*old(labels), *open),
            same_shape(*old(labels), *target),
            old(labels).spec_width() * old(labels).spec_height() <= i32::MAX,
            all_unlabelled(*old(labels)),
            cells_in_bounds(*open, sources@),
        ensures
            same_shape(*final(labels), *open),
            final(labels).spec_width() == old(labels).spec_width(),
            final(labels).spec_height() == old(labels).spec_height(),
            forall|p: Point|
                final(labels).spec_in_bounds(p.x as int, p.y as int) ==> #[trigger] label(
                    *final(labels),
                    p,
                ) >= -1,
            forall|p: Point|
                final(labels).spec_in_bounds(p.x as int, p.y as int) && #[trigger] label(
                    *final(labels),
                    p,
                ) >= 0 ==> reach(*open, sources@, label(*final(labels), p) as nat, p),
            !stop ==> r.is_none() && exact_distances(*final(labels), *open, sources@),
            stop ==> match r {
                Some(p) => {
                    &&& passable(*target, p)
                    &&& label(*final(labels), p) >= 0
                    &&& reach(*open, sources@, label(*final(labels), p) as nat, p)
                    &&& forall|c: Point, k: nat|
                        #[trigger] reach(*open, sources@, k, c) && passable(*target, c) ==> k
                            >= label(*final(labels), p)
                },
                None => forall|c: Point, k: nat|
                    #[trigger] reach(*open, sources@, k, c) ==> !passable(*target, c),
            },
    {
        let ghost w = labels.spec_width();
        let ghost h = labels.spec_height();
        let ghost srcs = sources@;
        self.frontier.clear();
        let ghost mut seen: Set<int> = Set::empty();
        proof {
            lemma_int_range(0, w * h);
        }
        proof {
            assert forall|p: Point| labels.spec_in_bounds(p.x as int, p.y as int) implies #[trigger] label(
                *labels,
                p,
            ) == -1 by {
                lemma_cell_index_bounds(w, h, p.x as int, p.y as int);
                assert(labels@.len() == w * h);
                assert(label(*labels, p) == labels@[cell_index(w, p.x as int, p.y as int)]);
            }
        }
        let mut i: usize = 0;
        while i < sources.len()
            invariant
                same_shape(*labels, *open),
                labels.spec_width() == w,
                labels.spec_height() == h,
                w == old(labels).spec_width(),
                h == old(labels).spec_height(),
                w * h <= i32::MAX,
                srcs == sources@,
                cells_in_bounds(*open, srcs),
                i <= srcs.len(),
                forall|j: int| 0 <= j < i ==> label(*labels, #[trigger] srcs[j]) == 0,
                forall|j: int| 0 <= j < self.frontier@.len() ==> #[trigger] self.frontier@[j] == (srcs[j], 0i32),
                self.frontier@.len() == i,
                seen.finite(),
                seen.subset_of(set_int_range(0, w * h)),
                forall|j: int| 0 <= j < w * h ==> (seen.contains(j) <==> labels@[j] >= 0),
                forall|j: int| 0 <= j < w * h ==> labels@[j] == -1 || labels@[j] == 0,
                forall|j: int| 0 <= j < w * h ==> labels@[j] < seen.len(),
                forall|p: Point|
                    labels.spec_in_bounds(p.x as int, p.y as int) && #[trigger] label(*labels, p) >= 0
                        ==> queued(self.frontier@, p),
            decreases srcs.len() - i,
        {
            let s = sources[i];
            proof {
                lemma_cell_index_bounds(w, h, s.x as int, s.y as int);
            }
            let ghost before = *labels;
            labels.set(s.x, s.y, 0);
            proof {
                let idx = cell_index(w, s.x as int, s.y as int);
                seen = seen.insert(idx);
                lemma_len_subset(set![idx], seen);
                assert forall|j: int| 0 <= j < i + 1 implies label(*labels, #[trigger] srcs[j]) == 0 by {
                    lemma_cell_index_bounds(w, h, srcs[j].x as int, srcs[j].y as int);
                    if j < i {
                        assert(label(before, srcs[j]) == 0);
                    }
                }
                assert(seen.contains(idx));
            }
            let ghost fr = self.frontier@;
            self.frontier.push_back((s, 0));
            proof {
                assert forall|p: Point|
                    labels.spec_in_bounds(p.x as int, p.y as int) && #[trigger] label(*labels, p) >= 0
                        implies queued(self.frontier@, p) by {
                    if p == s {
                        assert(self.frontier@[i as int].0 == p);
                    } else {
                        lemma_cell_index_bounds(w, h, p.x as int, p.y as int);
                        if cell_index(w, p.x as int, p.y as int) == cell_index(w, s.x as int, s.y as int) {
                            lemma_cell_index_injective(w, h, p.x as int, p.y as int, s.x as int, s.y as int);
                        }
                        assert(label(before, p) >= 0);
                        assert(queued(fr, p));
                        let j = choose|j: int| 0 <= j < fr.len() && (#[trigger] fr[j]).0 == p;
                        assert(self.frontier@[j].0 == p);
                    }
                }
            }
            i += 1;
        }
        let ghost mut done: Set<Point> = Set::empty();
        proof {
            assert forall|p: Point|
                labels.spec_in_bounds(p.x as int, p.y as int) && #[trigger] label(*labels, p) >= 0
                implies reach(*open, srcs, label(*labels, p) as nat, p) && queued(self.frontier@, p) by {
                lemma_cell_index_bounds(w, h, p.x as int, p.y as int);
                assert(labels@[cell_index(w, p.x as int, p.y as int)] == 0);
                let j = choose|j: int| 0 <= j < self.frontier@.len() && (#[trigger] self.frontier@[j]).0 == p;
                assert(srcs[j] == p);
                lemma_reach_source(*open, srcs, j);
            }
            assert forall|p: Point|
                labels.spec_in_bounds(p.x as int, p.y as int) implies #[trigger] label(*labels, p) >= -1 by {
                lemma_cell_index_bounds(w, h, p.x as int, p.y as int);
                assert(label(*labels, p) == labels@[cell_index(w, p.x as int, p.y as int)]);
            }
        }
        while self.frontier.len() > 0
            invariant
                same_shape(*labels, *open),
                same_shape(*labels, *target),
                labels.spec_width() == w,
                labels.spec_height() == h,
                w == old(labels).spec_width(),
                h == old(labels).spec_height(),
                w * h <= i32::MAX,
                srcs == sources@,
                cells_in_bounds(*open, srcs),
                forall|j: int| 0 <= j < srcs.len() ==> label(*labels, #[trigger] srcs[j]) == 0,
                forall|p: Point|
                    labels.spec_in_bounds(p.x as int, p.y as int) ==> #[trigger] label(*labels, p)
                        >= -1,
                forall|p: Point|
                    labels.spec_in_bounds(p.x as int, p.y as int) && #[trigger] label(*labels, p)
                        >= 0 ==> reach(*open, srcs, label(*labels, p) as nat, p),
                forall|j: int|
                    0 <= j < self.frontier@.len() ==> {
                        let e = #[trigger] self.frontier@[j];
                        &&& labels.spec_in_bounds(e.0.x as int, e.0.y as int)
                        &&& label(*labels, e.0) == e.1
                        &&& 0 <= e.1
                        &&& self.frontier@[0].1 <= e.1 <= self.frontier@[0].1 + 1
                    },
                forall|a: int, b: int|
                    0 <= a < b < self.frontier@.len() ==> #[trigger] self.frontier@[a].1
                        <= #[trigger] self.frontier@[b].1,
                forall|p: Point|
                    #[trigger] done.contains(p) ==> {
                        &&& labels.spec_in_bounds(p.x as int, p.y as int)
                        &&& label(*labels, p) >= 0
                        &&& expanded(*labels, *open, p)
                        &&& (stop ==> !passable(*target, p))
                        &&& (self.frontier@.len() > 0 ==> label(*labels, p)
                            <= self.frontier@[0].1)
                    },
                forall|p: Point|
                    labels.spec_in_bounds(p.x as int, p.y as int) && #[trigger] label(*labels, p)
                        >= 0 ==> done.contains(p) || queued(self.frontier@, p),
                seen.finite(),
                seen.subset_of(set_int_range(0, w * h)),
                forall|j: int| 0 <= j < w * h ==> (seen.contains(j) <==> labels@[j] >= 0),
                forall|j: int| 0 <= j < w * h ==> labels@[j] < seen.len(),
            decreases w * h - seen.len() + self.frontier@.len(),
        {
            let ghost q0 = self.frontier@;
            let (u, l) = self.frontier.pop_front().unwrap();
            proof {
                assert(q0[0] == (u, l));
                assert forall|p: Point|
                    labels.spec_in_bounds(p.x as int, p.y as int) && #[trigger] label(*labels, p) >= 0
                        implies done.contains(p) || queued(self.frontier@, p) || p == u by {
                    if !done.contains(p) && p != u {
                        let j = choose|j: int| 0 <= j < q0.len() && (#[trigger] q0[j]).0 == p;
                        assert(self.frontier@[j - 1] == q0[j]);
                    }
                }
                lemma_cell_index_bounds(w, h, u.x as int, u.y as int);
                assert(labels@[cell_index(w, u.x as int, u.y as int)] == l);
                lemma_int_range(0, w * h);
                lemma_len_subset(seen, set_int_range(0, w * h));
            }
            if stop && *target.get(u.x, u.y) {
                proof {
                    assert forall|p: Point|
                        labels.spec_in_bounds(p.x as int, p.y as int) && 0 <= #[trigger] label(
                            *labels,
                            p,
                        ) < l implies done.contains(p) by {
                        if !done.contains(p) {
                            let j = choose|j: int| 0 <= j < q0.len() && (#[trigger] q0[j]).0 == p;
                            assert(q0[0].1 <= q0[j].1);
                        }
                    }
                    assert forall|c: Point, k: nat|
                        #[trigger] reach(*open, srcs, k, c) && passable(*target, c) implies k
                        >= label(*labels, u) by {
                        if k < l {
                            lemma_reach_labelled(*labels, *open, srcs, done, l as int, k, c);
                            lemma_reach_in_bounds(*open, srcs, k, c);
                            assert(done.contains(c));
                        }
                    }
                }
                return Some(u);
            }
            let ghost seen0 = seen;
            let mut k: usize = 0;
            while k < 8
                invariant
                    same_shape(*labels, *open),
                    same_shape(*labels, *target),
                    labels.spec_width() == w,
                    labels.spec_height() == h,
                    w == old(labels).spec_width(),
                    h == old(labels).spec_height(),
                    w * h <= i32::MAX,
                    srcs == sources@,
                    cells_in_bounds(*open, srcs),
                    0 <= k <= 8,
                    labels.spec_in_bounds(u.x as int, u.y as int),
                    label(*labels, u) == l,
                    0 <= l,
                    (l as int) < seen.len(),
                    stop ==> !passable(*target, u),
                    forall|j: int| 0 <= j < srcs.len() ==> label(*labels, #[trigger] srcs[j]) == 0,
                    forall|p: Point|
                        labels.spec_in_bounds(p.x as int, p.y as int) ==> #[trigger] label(
                            *labels,
                            p,
                        ) >= -1,
                    forall|p: Point|
                        labels.spec_in_bounds(p.x as int, p.y as int) && #[trigger] label(
                            *labels,
                            p,
                        ) >= 0 ==> reach(*open, srcs, label(*labels, p) as nat, p),
                    forall|j: int|
                        0 <= j < self.frontier@.len() ==> {
                            let e = #[trigger] self.frontier@[j];
                            &&& labels.spec_in_bounds(e.0.x as int, e.0.y as int)
                            &&& label(*labels, e.0) == e.1
                            &&& 0 <= e.1
                            &&& l <= e.1 <= l + 1
                        },
                    forall|a: int, b: int|
                        0 <= a < b < self.frontier@.len() ==> #[trigger] self.frontier@[a].1
                            <= #[trigger] self.frontier@[b].1,
                    forall|p: Point|
                        #[trigger] done.contains(p) ==> {
                            &&& labels.spec_in_bounds(p.x as int, p.y as int)
                            &&& label(*labels, p) >= 0
                            &&& expanded(*labels, *open, p)
                            &&& (stop ==> !passable(*target, p))
                            &&& label(*labels, p) <= l
                        },
                    forall|p: Point|
                        labels.spec_in_bounds(p.x as int, p.y as int) && #[trigger] label(
                            *labels,
                            p,
                        ) >= 0 ==> done.contains(p) || queued(self.frontier@, p) || p == u,
                    forall|j: int|
                        0 <= j < k ==> {
                            let v = Point {
                                x: (u.x + (#[trigger] offset(j)).0) as i32,
                                y: (u.y + offset(j).1) as i32,
                            };
                            passable(*open, v) ==> 0 <= label(*labels, v) <= l + 1
                        },
                    seen.finite(),
                    seen.subset_of(set_int_range(0, w * h)),
                    forall|j: int| 0 <= j < w * h ==> (seen.contains(j) <==> labels@[j] >= 0),
                    forall|j: int| 0 <= j < w * h ==> labels@[j] < seen.len(),
                    self.frontier@.len() + seen0.len() == q0.len() - 1 + seen.len(),
                decreases 8 - k,
            {
                let (dx, dy) = offset_at(k);
                let v = Point { x: u.x + dx, y: u.y + dy };
                if 0 <= v.x && v.x < open.width() && 0 <= v.y && v.y < open.height() && *open.get(
                    v.x,
                    v.y,
                ) && *labels.get(v.x, v.y) < 0 {
                    let ghost before = *labels;
                    let ghost vidx = cell_index(w, v.x as int, v.y as int);
                    proof {
                        lemma_cell_index_bounds(w, h, v.x as int, v.y as int);
                        lemma_int_range(0, w * h);
                lemma_len_subset(seen, set_int_range(0, w * h));
                        assert(!seen.contains(vidx));
                        assert(seen.insert(vidx).subset_of(set_int_range(0, w * h)));
                        lemma_len_subset(seen.insert(vidx), set_int_range(0, w * h));
                    }
                    labels.set(v.x, v.y, l + 1);
                    proof {
                        seen = seen.insert(vidx);
                        assert forall|p: Point|
                            labels.spec_in_bounds(p.x as int, p.y as int) && p != v implies #[trigger] label(
                                *labels,
                                p,
                            ) == label(before, p) by {
                            lemma_cell_index_bounds(w, h, p.x as int, p.y as int);
                            if cell_index(w, p.x as int, p.y as int) == vidx {
                                lemma_cell_index_injective(w, h, p.x as int, p.y as int, v.x as int, v.y as int);
                            }
                        }
                        assert(label(*labels, v) == l + 1);
                        assert(adjacent_cells(u, v));
                        lemma_reach_step(*open, srcs, l as nat, u, v);
                    }
                    let ghost fr = self.frontier@;
                    self.frontier.push_back((v, l + 1));
                    proof {
                        assert(self.frontier@[fr.len() as int].0 == v);
                        assert forall|p: Point| queued(fr, p) implies queued(self.frontier@, p) by {
                            let j = choose|j: int| 0 <= j < fr.len() && (#[trigger] fr[j]).0 == p;
                            assert(self.frontier@[j] == fr[j]);
                        }
                    }
                }
                k += 1;
            }
            proof {
                assert forall|v: Point| #[trigger] adjacent_cells(u, v) && passable(*open, v) implies 0 <= label(*labels, v) <= label(*labels, u) + 1 by {
                    lemma_adjacent_is_offset(u, v);
                    let j = choose|j: int| 0 <= j < 8 && v.x == u.x + (#[trigger] offset(j)).0 && v.y == u.y + offset(j).1;
                }
                done = done.insert(u);
            }
        }
        proof {
            if !stop {
                assert forall|p: Point, k: nat| #[trigger] reach(*open, srcs, k, p) implies labels.spec_in_bounds(p.x as int, p.y as int)
                    && 0 <= label(*labels, p) <= k by {
                    lemma_reach_labelled(*labels, *open, srcs, done, k as int + 1, k, p);
                    lemma_reach_in_bounds(*open, srcs, k, p);
                }
            } else {
                assert forall|c: Point, k: nat| #[trigger] reach(*open, srcs, k, c) implies !passable(*target, c) by {
                    lemma_reach_labelled(*labels, *open, srcs, done, k as int + 1, k, c);
                    lemma_reach_in_bounds(*open, srcs, k, c);
                }
            }
        }
        None
    }
}

} // verus!
