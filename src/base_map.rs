use vstd::prelude::*;
use crate::irect::Point;

verus! {

/// Whether `p` lies on a map of the given size.
pub open spec fn on_map(size: (int, int), p: Point) -> bool {
    0 <= p.x < size.0 && 0 <= p.y < size.1
}

/// What the spatial algorithms need of a map: its size, which cells block
/// sight, where one may step from a cell and at what cost, and a heuristic
/// estimate of the remaining cost between two cells.
pub trait BaseMap {
    /// The map's internal consistency, which its methods rely on.
    spec fn map_ok(&self) -> bool;

    spec fn spec_size(&self) -> (int, int);

    spec fn spec_opaque(&self, p: Point) -> bool;

    spec fn spec_successors(&self, p: Point) -> Seq<(Point, u64)>;

    spec fn spec_distance(&self, a: Point, b: Point) -> u64;

    fn size(&self) -> (r: (i32, i32))
        requires
            self.map_ok(),
        ensures
            r.0 == self.spec_size().0,
            r.1 == self.spec_size().1,
            r.0 >= 0,
            r.1 >= 0,
    ;

    fn is_opaque(&self, p: Point) -> (r: bool)
        requires
            self.map_ok(),
            on_map(self.spec_size(), p),
        ensures
            r == self.spec_opaque(p),
    ;

    fn distance(&self, a: Point, b: Point) -> (r: u64)
        ensures
            r == self.spec_distance(a, b),
    ;

    fn successors(&self, p: Point) -> (r: Vec<(Point, u64)>)
        requires
            self.map_ok(),
            on_map(self.spec_size(), p),
        ensures
            r@ == self.spec_successors(p),
            forall|i: int| 0 <= i < r@.len() ==> on_map(self.spec_size(), #[trigger] r@[i].0),
    ;
}

} // verus!
