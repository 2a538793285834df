use vstd::prelude::*;
use crate::grid::Grid;
use crate::irect::Point;
use crate::map::{IntermediateMap, LevelMap, TileType};

verus! {

/// A level generator that works in small steps, so that generation can be
/// spread over many frames and shown while it runs.
pub trait MapBuilder {
    /// The generator's internal consistency.
    spec fn builder_ok(&self) -> bool;

    /// Whether the level is complete.
    spec fn finished(&self) -> bool;

    /// Where the player starts.
    spec fn start(&self) -> Point;

    /// The level as generated so far.
    spec fn level_tiles(&self) -> Grid<TileType>;

    /// Advances generation by one step; returns whether the level is complete.
    fn progress(&mut self) -> (r: bool)
        requires
            old(self).builder_ok(),
        ensures
            final(self).builder_ok(),
            r == final(self).finished(),
    ;

    fn player_pos(&self) -> (r: Point)
        requires
            self.builder_ok(),
        ensures
            r == self.start(),
    ;

    /// A read-only view of the level so far.
    fn intermediate(&self) -> (r: IntermediateMap<'_>)
        ensures
            r.spec_tiles() == self.level_tiles(),
    ;

    /// Hands the tiles over to a finished level.
    fn build(&mut self) -> (r: LevelMap)
        requires
            old(self).builder_ok(),
        ensures
            r.spec_tiles() == old(self).level_tiles(),
            r.wf(),
    ;
}

} // verus!
