use vstd::prelude::*;

verus! {

/// The kind of cliff edge a map cell lies on.
#[derive(Clone, Copy, Debug, PartialEq, Eq, Structural)]
pub enum Cliff {
    NoCliff,
    Low,
    High,
    Both,
}

/// What the map analysis knows about one cell of the grid.
#[derive(Clone, Copy, Debug, PartialEq, Eq, Structural)]
pub struct MapPoint {
    pub walkable: bool,
    pub pathable: bool,
    /// Whether a reaper can climb here. This library does not detect climbs, so
    /// `GameMap::new` never sets it; the third pass only keeps or clears it.
    pub climbable: bool,
    pub is_border: bool,
    /// Whether the cell lies on a choke. This library does not detect chokes, so
    /// `GameMap::new` never sets it.
    pub is_choke: bool,
    pub overlord_spot: bool,
    pub height: usize,
    /// The kind of cliff edge. This library does not detect cliffs, so `GameMap::new`
    /// leaves it `Cliff::NoCliff`; the third pass only keeps or clears it.
    pub cliff_type: Cliff,
}

impl MapPoint {
    /// A cell about which nothing is known yet.
    pub open spec fn blank() -> MapPoint {
        MapPoint {
            walkable: false,
            pathable: false,
            climbable: false,
            is_border: false,
            is_choke: false,
            overlord_spot: false,
            height: 0,
            cliff_type: Cliff::NoCliff,
        }
    }

    pub fn new() -> (p: MapPoint)
        ensures
            p == MapPoint::blank(),
    {
        MapPoint {
            walkable: false,
            pathable: false,
            climbable: false,
            is_border: false,
            is_choke: false,
            overlord_spot: false,
            height: 0,
            cliff_type: Cliff::NoCliff,
        }
    }
}

} // verus!
