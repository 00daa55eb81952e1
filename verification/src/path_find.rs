use vstd::prelude::*;

verus! {

/// A pathing grid, indexed `[x][y]`, with its dimensions.
pub struct PathFind {
    pub map: Vec<Vec<usize>>,
    pub width: usize,
    pub height: usize,
}

/// Every column of `g` has `h` entries.
pub open spec fn grid_dims(g: Seq<Vec<usize>>, w: int, h: int) -> bool {
    &&& g.len() == w
    &&& forall|i: int| 0 <= i < w ==> #[trigger] g[i]@.len() == h
}

impl PathFind {
    /// The grid has `width` columns of `height` entries.
    pub open spec fn wf(&self) -> bool {
        grid_dims(self.map@, self.width as int, self.height as int)
    }

    pub fn new_internal(map: Vec<Vec<usize>>) -> (pf: PathFind)
        requires
            map@.len() > 0,
            grid_dims(map@, map@.len() as int, map@[0]@.len() as int),
        ensures
            pf.map@ == map@,
            pf.width == map@.len(),
            pf.height == map@[0]@.len(),
            pf.wf(),
    {
        let width = map.len();
        let height = map[0].len();
        PathFind { map, width, height }
    }
}

} // verus!
