//! The world-coordinate bounding box a tile is cut from.

use vstd::prelude::*;

verus! {

/// A bounding box in world coordinates.
///
/// World coordinates are integers in a fixed unit chosen by the caller.
#[derive(Clone, Copy, Debug, PartialEq, Eq)]
pub struct Extent {
    pub minx: i64,
    pub miny: i64,
    pub maxx: i64,
    pub maxy: i64,
}

impl Extent {
    /// An extent spans a positive distance on both axes.
    pub open spec fn wf(&self) -> bool {
        self.minx < self.maxx && self.miny < self.maxy
    }

    /// Whether the world point `(x, y)` lies inside the box, borders included.
    pub open spec fn contains(&self, x: int, y: int) -> bool {
        self.minx <= x <= self.maxx && self.miny <= y <= self.maxy
    }

    /// Runtime test of [`Extent::wf`].
    pub fn is_valid(&self) -> (ok: bool)
        ensures
            ok == self.wf(),
    {
        self.minx < self.maxx && self.miny < self.maxy
    }
}

} // verus!
