use vstd::prelude::*;

verus! {

/// A dense row-major `width` by `height` array of cells.
pub struct Grid<T: Copy> {
    pub(crate) data: Vec<T>,
    pub(crate) width: i32,
    pub(crate) height: i32,
}

impl<T: Copy> View for Grid<T> {
    type V = Seq<T>;

    open(crate) spec fn view(&self) -> Seq<T> {
        self.data@
    }
}

/// Whether `(x, y)` lies on a `w` by `h` grid.
pub open spec fn in_bounds(w: int, h: int, x: int, y: int) -> bool {
    0 <= x < w && 0 <= y < h
}

/// The row-major position of cell `(x, y)` on a grid of width `w`.
pub open spec fn cell_index(w: int, x: int, y: int) -> int {
    y * w + x
}

pub proof fn lemma_cell_index_bounds(w: int, h: int, x: int, y: int)
    requires
        in_bounds(w, h, x, y),
    ensures
        0 <= cell_index(w, x, y) < w * h,
{
    assert(y * w + x < w * h) by (nonlinear_arith)
        requires
            0 <= x < w,
            0 <= y < h,
    ;
    assert(0 <= y * w) by (nonlinear_arith)
        requires
            0 <= x < w,
            0 <= y,
    ;
}

/// Distinct cells of a grid have distinct row-major positions.
pub proof fn lemma_cell_index_injective(w: int, h: int, x1: int, y1: int, x2: int, y2: int)
    requires
        in_bounds(w, h, x1, y1),
        in_bounds(w, h, x2, y2),
        cell_index(w, x1, y1) == cell_index(w, x2, y2),
    ensures
        x1 == x2 && y1 == y2,
{
    if y1 < y2 {
        assert(y1 * w + x1 < y2 * w + x2) by (nonlinear_arith)
            requires
                y1 < y2,
                0 <= x1 < w,
                0 <= x2,
        ;
    } else if y2 < y1 {
        assert(y2 * w + x2 < y1 * w + x1) by (nonlinear_arith)
            requires
                y2 < y1,
                0 <= x2 < w,
                0 <= x1,
        ;
    }
}

/// The cell at row-major position `i` of a grid of width `w`.
pub proof fn lemma_index_cell(w: int, h: int, i: int)
    requires
        0 <= i < w * h,
        w > 0,
    ensures
        in_bounds(w, h, i % w, i / w),
        cell_index(w, i % w, i / w) == i,
{
    assert(i / w < h && 0 <= i / w) by (nonlinear_arith)
        requires
            0 <= i < w * h,
            w > 0,
    ;
    assert(i == (i / w) * w + i % w) by (nonlinear_arith)
        requires
            w > 0,
    ;
}

impl<T: Copy> Grid<T> {
    pub open(crate) spec fn spec_width(&self) -> int {
        self.width as int
    }

    pub open(crate) spec fn spec_height(&self) -> int {
        self.height as int
    }

    /// Dimensions are non-negative and the cells fill exactly `width * height` slots.
    pub open(crate) spec fn wf(&self) -> bool {
        &&& self.width >= 0
        &&& self.height >= 0
        &&& self.data@.len() == self.width * self.height
    }

    pub open(crate) spec fn spec_in_bounds(&self, x: int, y: int) -> bool {
        in_bounds(self.width as int, self.height as int, x, y)
    }

    /// The value at cell `(x, y)`.
    pub open(crate) spec fn at(&self, x: int, y: int) -> T {
        self.data@[cell_index(self.width as int, x, y)]
    }

    pub fn new(width: i32, height: i32, value: T) -> (r: Self)
        requires
            width >= 0,
            height >= 0,
            width * height <= usize::MAX,
        ensures
            r.wf(),
            r.spec_width() == width,
            r.spec_height() == height,
            forall|i: int| 0 <= i < r@.len() ==> r@[i] == value,
    {
        let n = (width as usize) * (height as usize);
        let mut data: Vec<T> = Vec::with_capacity(n);
        let mut i: usize = 0;
        while i < n
            invariant
                i <= n,
                data@.len() == i,
                forall|j: int| 0 <= j < i ==> data@[j] == value,
            decreases n - i,
        {
            data.push(value);
            i += 1;
        }
        Grid { data, width, height }
    }

    /// All cells, row by row.
    pub fn iter(&self) -> (r: &[T])
        ensures
            r@ == self@,
    {
        self.data.as_slice()
    }

    /// Sets every cell to `value`, keeping the dimensions.
    pub fn fill(&mut self, value: T)
        requires
            old(self).wf(),
        ensures
            final(self).wf(),
            final(self).spec_width() == old(self).spec_width(),
            final(self).spec_height() == old(self).spec_height(),
            forall|i: int| 0 <= i < final(self)@.len() ==> final(self)@[i] == value,
    {
        let n = self.data.len();
        let mut i: usize = 0;
        while i < n
            invariant
                i <= n,
                self.data@.len() == n,
                self.width == old(self).width,
                self.height == old(self).height,
                n == old(self).data@.len(),
                forall|j: int| 0 <= j < i ==> self.data@[j] == value,
            decreases n - i,
        {
            self.data.set(i, value);
            i += 1;
        }
    }

    /// Changes the dimensions; the first `width * height` values in row-major
    /// order are kept and new slots hold `value`.
    pub fn resize(&mut self, width: i32, height: i32, value: T)
        requires
            old(self).wf(),
            width >= 0,
            height >= 0,
            width * height <= usize::MAX,
        ensures
            final(self).wf(),
            final(self).spec_width() == width,
            final(self).spec_height() == height,
            forall|i: int|
                0 <= i < final(self)@.len() ==> final(self)@[i] == if i < old(self)@.len() {
                    old(self)@[i]
                } else {
                    value
                },
    {
        let n = (width as usize) * (height as usize);
        if n < self.data.len() {
            self.data.truncate(n);
        } else {
            let mut i: usize = self.data.len();
            while i < n
                invariant
                    old(self)@.len() <= i <= n,
                    self.data@.len() == i,
                    forall|j: int|
                        0 <= j < i ==> self.data@[j] == if j < old(self)@.len() {
                            old(self)@[j]
                        } else {
                            value
                        },
                decreases n - i,
            {
                self.data.push(value);
                i += 1;
            }
        }
        self.width = width;
        self.height = height;
    }

    /// The number of cells.
    pub fn len(&self) -> (r: usize)
        requires
            self.wf(),
        ensures
            r == self.spec_width() * self.spec_height(),
    {
        self.data.len()
    }

    pub fn width(&self) -> (r: i32)
        ensures
            r == self.spec_width(),
    {
        self.width
    }

    pub fn height(&self) -> (r: i32)
        ensures
            r == self.spec_height(),
    {
        self.height
    }

    pub fn get(&self, x: i32, y: i32) -> (r: &T)
        requires
            self.wf(),
            self.spec_in_bounds(x as int, y as int),
        ensures
            *r == self.at(x as int, y as int),
    {
        let idx = self.xy_idx(x, y);
        &self.data[idx]
    }

    pub fn get_mut(&mut self, x: i32, y: i32) -> (r: &mut T)
        requires
            old(self).wf(),
            old(self).spec_in_bounds(x as int, y as int),
        ensures
            *r == old(self).at(x as int, y as int),
            final(self).spec_width() == old(self).spec_width(),
            final(self).spec_height() == old(self).spec_height(),
            final(self)@ == old(self)@.update(
                cell_index(old(self).spec_width(), x as int, y as int),
                *final(r),
            ),
    {
        let idx = self.xy_idx(x, y);
        &mut self.data[idx]
    }

    /// Stores `value` at cell `(x, y)`.
    pub fn set(&mut self, x: i32, y: i32, value: T)
        requires
            old(self).wf(),
            old(self).spec_in_bounds(x as int, y as int),
        ensures
            final(self).wf(),
            final(self).spec_width() == old(self).spec_width(),
            final(self).spec_height() == old(self).spec_height(),
            final(self)@ == old(self)@.update(
                cell_index(old(self).spec_width(), x as int, y as int),
                value,
            ),
    {
        let idx = self.xy_idx(x, y);
        self.data.set(idx, value);
    }

    fn xy_idx(&self, x: i32, y: i32) -> (r: usize)
        requires
            self.wf(),
            self.spec_in_bounds(x as int, y as int),
        ensures
            r as int == cell_index(self.spec_width(), x as int, y as int),
            r < self@.len(),
    {
        proof {
            lemma_cell_index_bounds(self.width as int, self.height as int, x as int, y as int);
        }
        assert(0 <= (y as int) * (self.width as int) <= (y as int) * (self.width as int) + (x as int) < self.data@.len());
        let len = self.data.len();
        let yw = (y as usize) * (self.width as usize);
        yw + (x as usize)
    }
}

} // verus!
