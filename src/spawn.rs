use vstd::prelude::*;
use crate::rng::random_index;

verus! {

/// No cell is listed twice.
pub open spec fn distinct_cells(s: Seq<(i32, i32)>) -> bool {
    forall|i: int, j: int| 0 <= i < j < s.len() ==> s[i] != s[j]
}

/// `c` lies in the box `[x0, x1] x [y0, y1]`.
pub open spec fn cell_in_box(c: (i32, i32), x0: int, y0: int, x1: int, y1: int) -> bool {
    x0 <= c.0 <= x1 && y0 <= c.1 <= y1
}

fn listed(cells: &Vec<(i32, i32)>, c: (i32, i32)) -> (r: bool)
    ensures
        r == cells@.contains(c),
{
    let mut i: usize = 0;
    while i < cells.len()
        invariant
            i <= cells@.len(),
            forall|j: int| 0 <= j < i ==> cells@[j] != c,
        decreases cells@.len() - i,
    {
        if cells[i].0 == c.0 && cells[i].1 == c.1 {
            return true;
        }
        i += 1;
    }
    false
}

/// Adds up to `count` cells of the box `[x0, x1] x [y0, y1]` to `taken`,
/// each drawn uniformly among the cells of the box not taken yet; stops
/// early once the box is full.
pub fn pick_cells(taken: &mut Vec<(i32, i32)>, x0: i32, y0: i32, x1: i32, y1: i32, count: i32)
    requires
        distinct_cells(old(taken)@),
        x1 < i32::MAX,
        y1 < i32::MAX,
    ensures
        distinct_cells(final(taken)@),
        old(taken)@.is_prefix_of(final(taken)@),
        final(taken)@.len() <= old(taken)@.len() + if count > 0 { count as int } else { 0 },
        forall|i: int|
            old(taken)@.len() <= i < final(taken)@.len() ==> cell_in_box(
                #[trigger] final(taken)@[i],
                x0 as int,
                y0 as int,
                x1 as int,
                y1 as int,
            ),
        count > 0 ==> final(taken)@.len() == old(taken)@.len() + count || forall|c: (i32, i32)|
            #[trigger] cell_in_box(c, x0 as int, y0 as int, x1 as int, y1 as int) ==> final(taken)@.contains(c),
        count > 0 && x0 <= x1 && y0 <= y1 ==> exists|i: int|
            0 <= i < final(taken)@.len() && #[trigger] cell_in_box(
                final(taken)@[i],
                x0 as int,
                y0 as int,
                x1 as int,
                y1 as int,
            ),
{
    let ghost start = taken@;
    let mut n: i32 = 0;
    while n < count
        invariant
            start == old(taken)@,
            distinct_cells(taken@),
            start.is_prefix_of(taken@),
            0 <= n,
            n <= count || count <= 0,
            count <= 0 ==> n == 0,
            taken@.len() == start.len() + n,
            x1 < i32::MAX,
            y1 < i32::MAX,
            forall|i: int|
                start.len() <= i < taken@.len() ==> cell_in_box(
                    #[trigger] taken@[i],
                    x0 as int,
                    y0 as int,
                    x1 as int,
                    y1 as int,
                ),
        decreases count - n,
    {
        let mut free: Vec<(i32, i32)> = Vec::new();
        let mut y = y0;
        while y <= y1
            invariant
                y0 <= y,
                y <= y1 + 1 || y == y0,
                x1 < i32::MAX,
                y1 < i32::MAX,
                forall|c: (i32, i32)|
                    #[trigger] cell_in_box(c, x0 as int, y0 as int, x1 as int, y - 1) ==> taken@.contains(c)
                        || free@.contains(c),
                forall|i: int|
                    0 <= i < free@.len() ==> cell_in_box(#[trigger] free@[i], x0 as int, y0 as int, x1 as int, y1 as int)
                        && !taken@.contains(free@[i]),
            decreases y1 + 1 - y,
        {
            let mut x = x0;
            while x <= x1
                invariant
                    x0 <= x,
                    x <= x1 + 1 || x == x0,
                    y0 <= y <= y1,
                    x1 < i32::MAX,
                    y1 < i32::MAX,
                    forall|c: (i32, i32)|
                        #[trigger] cell_in_box(c, x0 as int, y0 as int, x1 as int, y - 1) || (c.1 == y && x0 <= c.0 < x)
                            ==> taken@.contains(c) || free@.contains(c),
                    forall|i: int|
                        0 <= i < free@.len() ==> cell_in_box(#[trigger] free@[i], x0 as int, y0 as int, x1 as int, y1 as int)
                            && !taken@.contains(free@[i]),
                decreases x1 + 1 - x,
            {
                let ghost f0 = free@;
                if !listed(taken, (x, y)) {
                    free.push((x, y));
                    proof {
                        assert(free@[f0.len() as int] == (x, y));
                    }
                }
                proof {
                    assert forall|c: (i32, i32)|
                        #[trigger] cell_in_box(c, x0 as int, y0 as int, x1 as int, y - 1) || (c.1 == y && x0 <= c.0 < x + 1)
                            implies taken@.contains(c) || free@.contains(c) by {
                        if f0.contains(c) {
                            let j = choose|j: int| 0 <= j < f0.len() && f0[j] == c;
                            assert(free@[j] == c);
                        }
                    }
                }
                x += 1;
            }
            proof {
                assert forall|c: (i32, i32)| #[trigger] cell_in_box(c, x0 as int, y0 as int, x1 as int, y as int)
                    implies taken@.contains(c) || free@.contains(c) by {
                    if c.1 < y {
                        assert(cell_in_box(c, x0 as int, y0 as int, x1 as int, y - 1));
                    } else {
                        assert(c.1 == y && x0 <= c.0 < x);
                    }
                }
            }
            y += 1;
        }
        if free.len() == 0 {
            proof {
                assert forall|c: (i32, i32)| #[trigger] cell_in_box(c, x0 as int, y0 as int, x1 as int, y1 as int)
                    implies taken@.contains(c) by {
                    assert(cell_in_box(c, x0 as int, y0 as int, x1 as int, y - 1));
                }
                if x0 <= x1 && y0 <= y1 {
                    let c0 = (x0, y0);
                    assert(cell_in_box(c0, x0 as int, y0 as int, x1 as int, y1 as int));
                    assert(taken@.contains(c0));
                    let j = choose|j: int| 0 <= j < taken@.len() && taken@[j] == c0;
                    assert(cell_in_box(taken@[j], x0 as int, y0 as int, x1 as int, y1 as int));
                }
            }
            return;
        }
        let k = random_index(free.len());
        let c = free[k];
        let ghost before = taken@;
        taken.push(c);
        proof {
            assert forall|i: int, j: int| 0 <= i < j < taken@.len() implies taken@[i] != taken@[j] by {
                if j == before.len() {
                    assert(taken@[i] == before[i]);
                    assert(!before.contains(c));
                }
            }
            assert forall|i: int| start.len() <= i < taken@.len() implies cell_in_box(
                #[trigger] taken@[i],
                x0 as int,
                y0 as int,
                x1 as int,
                y1 as int,
            ) by {
                if i < before.len() {
                    assert(taken@[i] == before[i]);
                }
            }
            assert(start.is_prefix_of(taken@)) by {
                assert forall|i: int| 0 <= i < start.len() implies start[i] == taken@[i] by {
                    assert(taken@[i] == before[i]);
                }
            }
        }
        n += 1;
    }
    proof {
        if count > 0 {
            assert(n == count);
            let j = start.len() as int;
            assert(cell_in_box(taken@[j], x0 as int, y0 as int, x1 as int, y1 as int));
        }
    }
}

} // verus!
