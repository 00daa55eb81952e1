use vstd::prelude::*;
use crate::map_point::{Cliff, MapPoint};
use crate::path_find::{PathFind, grid_dims};
use crate::grid::heights_of;
use crate::flood::fill_ready;
use crate::survey::{
    survey_ok, first_point, marked_point, walkable_at, pathable_at, first_pass, second_pass,
};
use crate::scan::flags_of;
use crate::refine::{refined_cell, scan_columns, refine_points};

verus! {

/// A spot where an overlord hides over a cliff: the cells that the flood fill
/// around it visited, summed up. Its centre is `(sum_x / count, sum_y / count)`.
#[derive(Clone, Copy, Debug, PartialEq, Eq, Structural)]
pub struct OverlordSpot {
    pub sum_x: u128,
    pub sum_y: u128,
    pub count: usize,
}

/// Mapping of a game map: pathing grids for each kind of unit and what is known of
/// every cell.
pub struct GameMap {
    pub ground_pathing: PathFind,
    pub air_pathing: PathFind,
    pub colossus_pathing: PathFind,
    pub reaper_pathing: PathFind,
    pub points: Vec<Vec<MapPoint>>,
    pub overlord_spots: Vec<OverlordSpot>,
    pub influence_colossus_map: bool,
    pub influence_reaper_map: bool,
}

/// Every column of the point grid has `h` entries.
pub open spec fn point_dims(pts: Seq<Vec<MapPoint>>, w: int, h: int) -> bool {
    &&& pts.len() == w
    &&& forall|i: int| 0 <= i < w ==> #[trigger] pts[i]@.len() == h
}

/// The code that `draw_climbs` paints for a cell.
pub open spec fn climb_code(path: usize, p: MapPoint) -> usize {
    if path > 0 {
        if p.cliff_type == Cliff::High {
            5
        } else if p.cliff_type == Cliff::Both {
            4
        } else if p.cliff_type == Cliff::Low {
            3
        } else {
            2
        }
    } else if p.climbable {
        1
    } else if p.overlord_spot {
        6
    } else {
        0
    }
}

/// The code that `draw_chokes` paints for a cell.
pub open spec fn choke_code(p: MapPoint) -> usize {
    if p.is_border {
        if p.is_choke {
            175
        } else {
            255
        }
    } else if p.is_choke {
        100
    } else {
        0
    }
}

/// `a` comes before `b` when the grid is read column by column.
pub open spec fn cell_before(a: (usize, usize), b: (usize, usize)) -> bool {
    a.0 < b.0 || (a.0 == b.0 && a.1 < b.1)
}

impl GameMap {
    pub open spec fn width(&self) -> int {
        self.points@.len() as int
    }

    pub open spec fn height(&self) -> int {
        self.points@[0]@.len() as int
    }

    /// All grids of the map have the same non-empty dimensions.
    pub open spec fn wf(&self) -> bool {
        let w = self.width();
        let h = self.height();
        &&& w > 0
        &&& point_dims(self.points@, w, h)
        &&& self.ground_pathing.wf() && self.ground_pathing.width == w
            && self.ground_pathing.height == h
        &&& self.air_pathing.wf() && self.air_pathing.width == w && self.air_pathing.height == h
        &&& self.colossus_pathing.wf() && self.colossus_pathing.width == w
            && self.colossus_pathing.height == h
        &&& self.reaper_pathing.wf() && self.reaper_pathing.width == w
            && self.reaper_pathing.height == h
    }

    /// The pathing grid that `map_type` names: 0 ground, 1 reaper, 2 colossus, 3 air.
    pub open spec fn map_of(&self, map_type: u8) -> PathFind {
        if map_type == 0 {
            self.ground_pathing
        } else if map_type == 1 {
            self.reaper_pathing
        } else if map_type == 2 {
            self.colossus_pathing
        } else {
            self.air_pathing
        }
    }

    /// The pathing grid that `map_type` names.
    pub fn get_map(&self, map_type: u8) -> (m: &PathFind)
        requires
            map_type <= 3,
        ensures
            *m == self.map_of(map_type),
    {
        if map_type == 0 {
            return &self.ground_pathing;
        }
        if map_type == 1 {
            return &self.reaper_pathing;
        }
        if map_type == 2 {
            return &self.colossus_pathing;
        }
        &self.air_pathing
    }

    /// The pathing grid that `map_type` names, to change in place; the rest of the
    /// map stays as it was.
    pub fn get_map_mut(&mut self, map_type: u8) -> (m: &mut PathFind)
        requires
            map_type <= 3,
        ensures
            *m == old(self).map_of(map_type),
            final(self).map_of(map_type) == *final(m),
            forall|other: u8|
                other <= 3 && other != map_type ==> #[trigger] final(self).map_of(other)
                    == old(self).map_of(other),
            final(self).points == old(self).points,
            final(self).overlord_spots == old(self).overlord_spots,
            final(self).influence_colossus_map == old(self).influence_colossus_map,
            final(self).influence_reaper_map == old(self).influence_reaper_map,
    {
        if map_type == 0 {
            return &mut self.ground_pathing;
        }
        if map_type == 1 {
            return &mut self.reaper_pathing;
        }
        if map_type == 2 {
            return &mut self.colossus_pathing;
        }
        &mut self.air_pathing
    }

    /// A grid that shows, for each cell, its cliff kind on ground pathing, and
    /// climbable cells and overlord spots off it.
    pub fn draw_climbs(&self) -> (walk_map: Vec<Vec<usize>>)
        requires
            self.wf(),
        ensures
            grid_dims(walk_map@, self.width(), self.height()),
            forall|x: int, y: int|
                0 <= x < self.width() && 0 <= y < self.height() ==> #[trigger] walk_map@[x]@[y]
                    == climb_code(self.ground_pathing.map@[x]@[y], self.points@[x]@[y]),
    {
        let width = self.ground_pathing.map.len();
        let height = self.ground_pathing.map[0].len();
        let path = &self.ground_pathing.map;
        let mut walk_map: Vec<Vec<usize>> = Vec::new();
        for x in 0..width
            invariant
                width == self.width(),
                height == self.height(),
                self.wf(),
                path == &self.ground_pathing.map,
                walk_map@.len() == x,
                forall|i: int| 0 <= i < x ==> #[trigger] walk_map@[i]@.len() == height,
                forall|i: int, j: int|
                    0 <= i < x && 0 <= j < height ==> #[trigger] walk_map@[i]@[j] == climb_code(
                        self.ground_pathing.map@[i]@[j],
                        self.points@[i]@[j],
                    ),
        {
            let mut column: Vec<usize> = Vec::new();
            for y in 0..height
                invariant
                    width == self.width(),
                    height == self.height(),
                    self.wf(),
                    path == &self.ground_pathing.map,
                    0 <= x < width,
                    column@.len() == y,
                    forall|j: int|
                        0 <= j < y ==> #[trigger] column@[j] == climb_code(
                            self.ground_pathing.map@[x as int]@[j],
                            self.points@[x as int]@[j],
                        ),
            {
                assert(self.points@[x as int]@.len() == height);
                assert(path@[x as int]@.len() == height);
                let point = &self.points[x][y];
                let code = if path[x][y] > 0 {
                    if point.cliff_type == Cliff::High {
                        5
                    } else if point.cliff_type == Cliff::Both {
                        4
                    } else if point.cliff_type == Cliff::Low {
                        3
                    } else {
                        2
                    }
                } else if point.climbable {
                    1
                } else if point.overlord_spot {
                    6
                } else {
                    0
                };
                column.push(code);
            }
            walk_map.push(column);
        }
        walk_map
    }

    /// A grid that shows borders, chokes, and borders inside chokes.
    pub fn draw_chokes(&self) -> (walk_map: Vec<Vec<usize>>)
        requires
            self.wf(),
        ensures
            grid_dims(walk_map@, self.width(), self.height()),
            forall|x: int, y: int|
                0 <= x < self.width() && 0 <= y < self.height() ==> #[trigger] walk_map@[x]@[y]
                    == choke_code(self.points@[x]@[y]),
    {
        let width = self.ground_pathing.map.len();
        let height = self.ground_pathing.map[0].len();
        let mut walk_map: Vec<Vec<usize>> = Vec::new();
        for x in 0..width
            invariant
                width == self.width(),
                height == self.height(),
                self.wf(),
                walk_map@.len() == x,
                forall|i: int| 0 <= i < x ==> #[trigger] walk_map@[i]@.len() == height,
                forall|i: int, j: int|
                    0 <= i < x && 0 <= j < height ==> #[trigger] walk_map@[i]@[j] == choke_code(
                        self.points@[i]@[j],
                    ),
        {
            let mut column: Vec<usize> = Vec::new();
            for y in 0..height
                invariant
                    width == self.width(),
                    height == self.height(),
                    self.wf(),
                    0 <= x < width,
                    column@.len() == y,
                    forall|j: int|
                        0 <= j < y ==> #[trigger] column@[j] == choke_code(self.points@[x as int]@[j]),
            {
                assert(self.points@[x as int]@.len() == height);
                let point = &self.points[x][y];
                let code = if point.is_border {
                    if point.is_choke {
                        175
                    } else {
                        255
                    }
                } else if point.is_choke {
                    100
                } else {
                    0
                };
                column.push(code);
            }
            walk_map.push(column);
        }
        walk_map
    }

    /// `r` lists the border cells of the map, each once, column by column.
    pub open spec fn border_list(&self, r: Seq<(usize, usize)>) -> bool {
        &&& forall|i: int|
            0 <= i < r.len() ==> {
                let c = #[trigger] r[i];
                &&& c.0 < self.width()
                &&& c.1 < self.height()
                &&& self.points@[c.0 as int]@[c.1 as int].is_border
            }
        &&& forall|x: usize, y: usize|
            x < self.width() && y < self.height() && #[trigger] self.points@[x as int]@[
                y as int].is_border ==> r.contains((x, y))
        &&& forall|i: int, j: int|
            0 <= i < j < r.len() ==> cell_before(#[trigger] r[i], #[trigger] r[j])
    }

    /// The border cells of the map, column by column.
    pub fn get_borders(&self) -> (result: Vec<(usize, usize)>)
        requires
            self.wf(),
        ensures
            self.border_list(result@),
    {
        let mut result: Vec<(usize, usize)> = Vec::new();
        let width = self.ground_pathing.width;
        let height = self.ground_pathing.height;
        for x in 0..width
            invariant
                width == self.width(),
                height == self.height(),
                self.wf(),
                forall|i: int|
                    0 <= i < result@.len() ==> {
                        let c = #[trigger] result@[i];
                        &&& c.0 < x
                        &&& c.1 < height
                        &&& self.points@[c.0 as int]@[c.1 as int].is_border
                    },
                forall|a: usize, b: usize|
                    a < x && b < height && #[trigger] self.points@[a as int]@[b as int].is_border
                        ==> result@.contains((a, b)),
                forall|i: int, j: int|
                    0 <= i < j < result@.len() ==> cell_before(
                        #[trigger] result@[i],
                        #[trigger] result@[j],
                    ),
        {
            for y in 0..height
                invariant
                    width == self.width(),
                    height == self.height(),
                    self.wf(),
                    0 <= x < width,
                    forall|i: int|
                        0 <= i < result@.len() ==> {
                            let c = #[trigger] result@[i];
                            &&& (c.0 < x || (c.0 == x && c.1 < y))
                            &&& c.1 < height
                            &&& self.points@[c.0 as int]@[c.1 as int].is_border
                        },
                    forall|a: usize, b: usize|
                        (a < x || (a == x && b < y)) && b < height
                            && #[trigger] self.points@[a as int]@[b as int].is_border
                            ==> result@.contains((a, b)),
                    forall|i: int, j: int|
                        0 <= i < j < result@.len() ==> cell_before(
                            #[trigger] result@[i],
                            #[trigger] result@[j],
                        ),
            {
                assert(self.points@[x as int]@.len() == height);
                if self.points[x][y].is_border {
                    let ghost before = result@;
                    result.push((x, y));
                    proof {
                        assert forall|a: usize, b: usize|
                            (a < x || (a == x && b < y + 1)) && b < height
                                && #[trigger] self.points@[a as int]@[b as int].is_border
                                implies result@.contains((a, b)) by {
                            if a == x && b == y {
                                assert(result@[result@.len() - 1] == (x, y));
                            } else {
                                assert(before.contains((a, b)));
                                let k = choose|k: int| 0 <= k < before.len() && before[k] == (a, b);
                                assert(result@[k] == (a, b));
                            }
                        }
                    }
                } else {
                    proof {
                        assert forall|a: usize, b: usize|
                            (a < x || (a == x && b < y + 1)) && b < height
                                && #[trigger] self.points@[a as int]@[b as int].is_border
                                implies result@.contains((a, b)) by {
                            if a == x && b == y {
                            }
                        }
                    }
                }
            }
        }
        result
    }
}

/// The grids can be keyed cell by cell.
pub open spec fn keyable_dims(w: int, h: int) -> bool {
    w <= crate::grid::Y_MULT && h * (crate::grid::Y_MULT as int) <= usize::MAX + 1
}

/// `p1` is the point grid of the first pass over the inputs.
pub open spec fn first_pass_grid(
    p1: Seq<Vec<MapPoint>>,
    pathing: Seq<Vec<usize>>,
    placement: Seq<Vec<usize>>,
    height_map: Seq<Vec<usize>>,
    x_start: usize,
    y_start: usize,
    x_end: usize,
    y_end: usize,
) -> bool {
    let w = pathing.len() as int;
    let h = pathing[0]@.len() as int;
    &&& point_dims(p1, w, h)
    &&& forall|x: int, y: int|
        0 <= x < w && 0 <= y < h ==> #[trigger] p1[x]@[y] == first_point(
            pathing,
            placement,
            height_map,
            x_start,
            y_start,
            x_end,
            y_end,
            x,
            y,
        )
}

/// `p2` is the point grid that the second pass makes of `p1`.
pub open spec fn second_pass_grid(
    p1: Seq<Vec<MapPoint>>,
    p2: Seq<Vec<MapPoint>>,
    x_start: usize,
    y_start: usize,
    x_end: usize,
    y_end: usize,
) -> bool {
    let w = p1.len() as int;
    let h = p1[0]@.len() as int;
    &&& point_dims(p2, w, h)
    &&& forall|x: int, y: int|
        0 <= x < w && 0 <= y < h ==> #[trigger] p2[x]@[y] == marked_point(
            p1,
            x_start,
            y_start,
            x_end,
            y_end,
            x,
            y,
        )
}

/// The map's points, reaper grid and overlord spots are what the third pass makes of
/// the surveyed grid `p2`, starting from the walk grid for reapers.
pub open spec fn third_pass_result(
    p2: Seq<Vec<MapPoint>>,
    m: GameMap,
    x_start: usize,
    y_start: usize,
    x_end: usize,
    y_end: usize,
) -> bool {
    let w = p2.len() as int;
    let h = p2[0]@.len() as int;
    let scan = scan_columns(
        heights_of(p2),
        (flags_of(p2), Set::empty(), Seq::empty()),
        x_start as int,
        y_start as int,
        y_end as int,
        x_end as int,
    );
    &&& forall|x: int, y: int|
        0 <= x < w && 0 <= y < h ==> #[trigger] refined_cell(
            p2,
            m.points@,
            m.ground_pathing.map@,
            m.reaper_pathing.map@,
            x_start,
            y_start,
            x_end,
            y_end,
            x,
            y,
        )
    &&& flags_of(m.points@) =~~= scan.0
    &&& m.overlord_spots@ == scan.2
}

/// `m` is the map built from the inputs: `p1` and `p2` are its first and second
/// pass grids.
pub open spec fn built_from(
    m: GameMap,
    pathing: Seq<Vec<usize>>,
    placement: Seq<Vec<usize>>,
    height_map: Seq<Vec<usize>>,
    x_start: usize,
    y_start: usize,
    x_end: usize,
    y_end: usize,
    p1: Seq<Vec<MapPoint>>,
    p2: Seq<Vec<MapPoint>>,
) -> bool {
    &&& first_pass_grid(p1, pathing, placement, height_map, x_start, y_start, x_end, y_end)
    &&& second_pass_grid(p1, p2, x_start, y_start, x_end, y_end)
    &&& third_pass_result(p2, m, x_start, y_start, x_end, y_end)
}

/// What `GameMap::new` builds from the inputs: well-formed grids of the inputs'
/// dimensions; ground pathing on the walkable cells, air pathing on the playable
/// area; the colossus grid a copy of the reaper grid; no influence maps; and the
/// points, reaper grid and overlord spots of the three passes.
pub open spec fn constructed(
    m: GameMap,
    pathing: Seq<Vec<usize>>,
    placement: Seq<Vec<usize>>,
    height_map: Seq<Vec<usize>>,
    x_start: usize,
    y_start: usize,
    x_end: usize,
    y_end: usize,
) -> bool {
    &&& m.wf()
    &&& m.width() == pathing.len()
    &&& m.height() == pathing[0]@.len()
    &&& forall|x: int, y: int|
        0 <= x < m.width() && 0 <= y < m.height() ==> {
            &&& #[trigger] m.ground_pathing.map@[x]@[y] == if walkable_at(pathing, placement, x, y) {
                1usize
            } else {
                0usize
            }
            &&& m.air_pathing.map@[x]@[y] == if pathable_at(x_start, y_start, x_end, y_end, x, y) {
                1usize
            } else {
                0usize
            }
        }
    &&& forall|x: int|
        0 <= x < m.width() ==> #[trigger] m.colossus_pathing.map@[x]@ == m.reaper_pathing.map@[x]@
    &&& !m.influence_colossus_map
    &&& !m.influence_reaper_map
    &&& exists|p1: Seq<Vec<MapPoint>>, p2: Seq<Vec<MapPoint>>|
        #[trigger] built_from(
            m,
            pathing,
            placement,
            height_map,
            x_start,
            y_start,
            x_end,
            y_end,
            p1,
            p2,
        )
}

/// A copy of a grid.
pub fn copy_grid(g: &Vec<Vec<usize>>) -> (c: Vec<Vec<usize>>)
    ensures
        c@.len() == g@.len(),
        forall|i: int| 0 <= i < g@.len() ==> #[trigger] c@[i]@ == g@[i]@,
{
    let mut c: Vec<Vec<usize>> = Vec::new();
    let len = g.len();
    for i in 0..len
        invariant
            len == g@.len(),
            c@.len() == i,
            forall|k: int| 0 <= k < i ==> #[trigger] c@[k]@ == g@[k]@,
    {
        let mut column: Vec<usize> = Vec::new();
        let n = g[i].len();
        for j in 0..n
            invariant
                n == g@[i as int]@.len(),
                0 <= i < g@.len(),
                column@.len() == j,
                forall|k: int| 0 <= k < j ==> #[trigger] column@[k] == g@[i as int]@[k],
        {
            column.push(g[i][j]);
        }
        assert(column@ =~= g@[i as int]@);
        c.push(column);
    }
    c
}

impl GameMap {
    /// Analyses a map: `pathing`, `placement` and `height_map` are indexed `[x][y]`;
    /// the playable area runs from `(x_start, y_start)` to `(x_end, y_end)`. The map
    /// has the size of `pathing`; the other grids may be larger.
    ///
    /// Climb, cliff and choke detection are not part of this analysis: no point is
    /// marked climbable or a choke, every point keeps `Cliff::NoCliff`, the reaper
    /// and colossus grids therefore equal the ground grid, and the map holds no
    /// chokes.
    pub fn new(
        pathing: Vec<Vec<usize>>,
        placement: Vec<Vec<usize>>,
        height_map: Vec<Vec<usize>>,
        x_start: usize,
        y_start: usize,
        x_end: usize,
        y_end: usize,
    ) -> (m: GameMap)
        requires
            survey_ok(pathing@, placement@, height_map@, x_start, y_start, x_end, y_end),
            keyable_dims(pathing@.len() as int, pathing@[0]@.len() as int),
        ensures
            constructed(m, pathing@, placement@, height_map@, x_start, y_start, x_end, y_end),
    {
        let ghost w = pathing@.len() as int;
        let ghost h = pathing@[0]@.len() as int;
        // Pass 1
        let (mut points, walk_map, fly_map, mut reaper_map) = first_pass(
            &pathing,
            &placement,
            &height_map,
            x_start,
            y_start,
            x_end,
            y_end,
        );
        let ghost p1 = points@;
        let ghost r1 = reaper_map@;
        let ghost walk = walk_map@;
        let ghost fly = fly_map@;
        proof {
            assert(p1[0]@.len() == h);
            assert forall|x: int, y: int| 0 <= x < w && 0 <= y < h implies #[trigger] p1[x]@[y].height
                + crate::grid::DIFFERENCE <= usize::MAX by {
                assert(height_map@[x]@[y] + crate::grid::DIFFERENCE <= usize::MAX);
            }
        }
        // Pass 2
        second_pass(&mut points, x_start, y_start, x_end, y_end);
        let ghost p2 = points@;
        let ground_pathing = PathFind::new_internal(walk_map);
        // Pass 3
        proof {
            let hs = heights_of(p2);
            assert(p2[0]@.len() == h);
            assert forall|i: int| 0 <= i < hs.len() implies #[trigger] hs[i].len() == crate::grid::height_of(hs) by {
                assert(p2[i]@.len() == h);
            }
            assert forall|x: int, y: int| crate::grid::in_grid(hs, x, y) implies #[trigger] hs[x][y]
                + crate::grid::DIFFERENCE <= usize::MAX by {
                assert(p2[x]@.len() == h);
                assert(p2[x]@[y] == marked_point(p1, x_start, y_start, x_end, y_end, x, y));
                assert(p1[x]@[y].height + crate::grid::DIFFERENCE <= usize::MAX);
            }
            assert(fill_ready(p2));
        }
        let overlord_spots = refine_points(&mut points, &mut reaper_map, x_start, y_start, x_end, y_end);
        let air_pathing = PathFind::new_internal(fly_map);
        let colossus_pathing = PathFind::new_internal(copy_grid(&reaper_map));
        let reaper_pathing = PathFind::new_internal(reaper_map);
        let influence_colossus_map = false;
        let influence_reaper_map = false;
        let m = GameMap {
            ground_pathing,
            air_pathing,
            colossus_pathing,
            reaper_pathing,
            points,
            overlord_spots,
            influence_colossus_map,
            influence_reaper_map,
        };
        proof {
            assert forall|x: int, y: int| 0 <= x < w && 0 <= y < h implies #[trigger] m.ground_pathing.map@[x]@[y] == if walkable_at(
                pathing@,
                placement@,
                x,
                y,
            ) {
                1usize
            } else {
                0usize
            } && m.air_pathing.map@[x]@[y] == if pathable_at(x_start, y_start, x_end, y_end, x, y) {
                1usize
            } else {
                0usize
            } && r1[x]@[y] == walk[x]@[y] by {
                assert(p1[x]@[y] == first_point(
                    pathing@,
                    placement@,
                    height_map@,
                    x_start,
                    y_start,
                    x_end,
                    y_end,
                    x,
                    y,
                ));
            }
            assert forall|x: int, y: int| 0 <= x < w && 0 <= y < h implies #[trigger] refined_cell(
                p2,
                m.points@,
                m.ground_pathing.map@,
                m.reaper_pathing.map@,
                x_start,
                y_start,
                x_end,
                y_end,
                x,
                y,
            ) by {
                assert(refined_cell(p2, m.points@, r1, m.reaper_pathing.map@, x_start, y_start, x_end, y_end, x, y));
                assert(m.ground_pathing.map@[x]@[y] == r1[x]@[y]);
            }
            assert(first_pass_grid(p1, pathing@, placement@, height_map@, x_start, y_start, x_end, y_end));
            assert(second_pass_grid(p1, p2, x_start, y_start, x_end, y_end));
            assert(third_pass_result(p2, m, x_start, y_start, x_end, y_end));
            assert(built_from(m, pathing@, placement@, height_map@, x_start, y_start, x_end, y_end, p1, p2));
        }
        m
    }
}

impl GameMap {
    /// A copy of the ground pathing grid.
    pub fn get_ground_pathing(&self) -> (g: Vec<Vec<usize>>)
        ensures
            g@.len() == self.ground_pathing.map@.len(),
            forall|i: int| 0 <= i < g@.len() ==> #[trigger] g@[i]@ == self.ground_pathing.map@[i]@,
    {
        copy_grid(&self.ground_pathing.map)
    }

    /// A copy of the air pathing grid.
    pub fn get_air_pathing(&self) -> (g: Vec<Vec<usize>>)
        ensures
            g@.len() == self.air_pathing.map@.len(),
            forall|i: int| 0 <= i < g@.len() ==> #[trigger] g@[i]@ == self.air_pathing.map@[i]@,
    {
        copy_grid(&self.air_pathing.map)
    }

    /// A copy of the reaper pathing grid.
    pub fn get_reaper_pathing(&self) -> (g: Vec<Vec<usize>>)
        ensures
            g@.len() == self.reaper_pathing.map@.len(),
            forall|i: int| 0 <= i < g@.len() ==> #[trigger] g@[i]@ == self.reaper_pathing.map@[i]@,
    {
        copy_grid(&self.reaper_pathing.map)
    }

    /// A copy of the colossus pathing grid.
    pub fn get_colossus_pathing(&self) -> (g: Vec<Vec<usize>>)
        ensures
            g@.len() == self.colossus_pathing.map@.len(),
            forall|i: int| 0 <= i < g@.len() ==> #[trigger] g@[i]@ == self.colossus_pathing.map@[i]@,
    {
        copy_grid(&self.colossus_pathing.map)
    }

    /// A copy of the overlord spots.
    pub fn get_overlord_spots(&self) -> (spots: Vec<OverlordSpot>)
        ensures
            spots@ == self.overlord_spots@,
    {
        let mut spots: Vec<OverlordSpot> = Vec::new();
        for i in 0..self.overlord_spots.len()
            invariant
                spots@ == self.overlord_spots@.take(i as int),
        {
            spots.push(self.overlord_spots[i]);
        }
        assert(self.overlord_spots@.take(self.overlord_spots@.len() as int) =~= self.overlord_spots@);
        spots
    }
}

} // verus!
