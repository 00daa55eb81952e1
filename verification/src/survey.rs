use vstd::prelude::*;
use crate::map_point::MapPoint;
use crate::path_find::grid_dims;
use crate::map::point_dims;
use crate::grid::DIFFERENCE;

verus! {

/// `g` has at least `w` columns, and each of the first `w` has at least `h` entries:
/// every cell `[x][y]` with `x < w` and `y < h` can be read.
pub open spec fn grid_covers(g: Seq<Vec<usize>>, w: int, h: int) -> bool {
    &&& g.len() >= w
    &&& forall|i: int| 0 <= i < w ==> #[trigger] g[i]@.len() >= h
}

/// The input grids and the playable area that the survey of a map accepts.
pub open spec fn survey_ok(
    pathing: Seq<Vec<usize>>,
    placement: Seq<Vec<usize>>,
    height_map: Seq<Vec<usize>>,
    x_start: usize,
    y_start: usize,
    x_end: usize,
    y_end: usize,
) -> bool {
    let w = pathing.len() as int;
    let h = pathing[0]@.len() as int;
    &&& pathing.len() > 0
    &&& grid_covers(pathing, w, h)
    &&& grid_covers(placement, w, h)
    &&& grid_covers(height_map, w, h)
    &&& x_start >= 1
    &&& y_start >= 1
    &&& (x_start < x_end && y_start < y_end ==> x_end < w && y_end < h)
    &&& forall|x: int, y: int|
        0 <= x < w && 0 <= y < h ==> #[trigger] height_map[x]@[y] + DIFFERENCE <= usize::MAX
}

pub open spec fn walkable_at(pathing: Seq<Vec<usize>>, placement: Seq<Vec<usize>>, x: int, y: int) -> bool {
    pathing[x]@[y] > 0 || placement[x]@[y] > 0
}

/// The cell lies inside the playable area, bounds included.
pub open spec fn pathable_at(
    x_start: usize,
    y_start: usize,
    x_end: usize,
    y_end: usize,
    x: int,
    y: int,
) -> bool {
    x_start <= x <= x_end && y_start <= y <= y_end
}

/// The cell lies in the part of the playable area whose neighbours are all examined.
pub open spec fn inner_at(
    x_start: usize,
    y_start: usize,
    x_end: usize,
    y_end: usize,
    x: int,
    y: int,
) -> bool {
    x_start <= x < x_end && y_start <= y < y_end
}

/// A cell as the first pass leaves it.
pub open spec fn first_point(
    pathing: Seq<Vec<usize>>,
    placement: Seq<Vec<usize>>,
    height_map: Seq<Vec<usize>>,
    x_start: usize,
    y_start: usize,
    x_end: usize,
    y_end: usize,
    x: int,
    y: int,
) -> MapPoint {
    MapPoint {
        walkable: walkable_at(pathing, placement, x, y),
        pathable: pathable_at(x_start, y_start, x_end, y_end, x, y),
        height: height_map[x]@[y],
        ..MapPoint::blank()
    }
}

/// The grids of the first pass: the points, and the walk, fly and reaper grids.
pub fn first_pass(
    pathing: &Vec<Vec<usize>>,
    placement: &Vec<Vec<usize>>,
    height_map: &Vec<Vec<usize>>,
    x_start: usize,
    y_start: usize,
    x_end: usize,
    y_end: usize,
) -> (grids: (Vec<Vec<MapPoint>>, Vec<Vec<usize>>, Vec<Vec<usize>>, Vec<Vec<usize>>))
    requires
        survey_ok(pathing@, placement@, height_map@, x_start, y_start, x_end, y_end),
    ensures
        ({
            let (points, walk_map, fly_map, reaper_map) = grids;
            let w = pathing@.len() as int;
            let h = pathing@[0]@.len() as int;
            &&& point_dims(points@, w, h)
            &&& grid_dims(walk_map@, w, h)
            &&& grid_dims(fly_map@, w, h)
            &&& grid_dims(reaper_map@, w, h)
            &&& forall|x: int, y: int|
                0 <= x < w && 0 <= y < h ==> {
                    &&& #[trigger] points@[x]@[y] == first_point(
                        pathing@,
                        placement@,
                        height_map@,
                        x_start,
                        y_start,
                        x_end,
                        y_end,
                        x,
                        y,
                    )
                    &&& walk_map@[x]@[y] == if walkable_at(pathing@, placement@, x, y) {
                        1usize
                    } else {
                        0usize
                    }
                    &&& reaper_map@[x]@[y] == walk_map@[x]@[y]
                    &&& fly_map@[x]@[y] == if pathable_at(x_start, y_start, x_end, y_end, x, y) {
                        1usize
                    } else {
                        0usize
                    }
                }
        }),
{
    let width = pathing.len();
    let height = pathing[0].len();
    let mut points: Vec<Vec<MapPoint>> = Vec::new();
    let mut walk_map: Vec<Vec<usize>> = Vec::new();
    let mut fly_map: Vec<Vec<usize>> = Vec::new();
    let mut reaper_map: Vec<Vec<usize>> = Vec::new();
    for x in 0..width
        invariant
            width == pathing@.len(),
            height == pathing@[0]@.len(),
            survey_ok(pathing@, placement@, height_map@, x_start, y_start, x_end, y_end),
            points@.len() == x,
            walk_map@.len() == x,
            fly_map@.len() == x,
            reaper_map@.len() == x,
            forall|i: int| 0 <= i < x ==> #[trigger] points@[i]@.len() == height,
            forall|i: int| 0 <= i < x ==> #[trigger] walk_map@[i]@.len() == height,
            forall|i: int| 0 <= i < x ==> #[trigger] fly_map@[i]@.len() == height,
            forall|i: int| 0 <= i < x ==> #[trigger] reaper_map@[i]@.len() == height,
            forall|i: int, j: int|
                0 <= i < x && 0 <= j < height ==> {
                    &&& #[trigger] points@[i]@[j] == first_point(
                        pathing@,
                        placement@,
                        height_map@,
                        x_start,
                        y_start,
                        x_end,
                        y_end,
                        i,
                        j,
                    )
                    &&& walk_map@[i]@[j] == if walkable_at(pathing@, placement@, i, j) {
                        1usize
                    } else {
                        0usize
                    }
                    &&& reaper_map@[i]@[j] == walk_map@[i]@[j]
                    &&& fly_map@[i]@[j] == if pathable_at(x_start, y_start, x_end, y_end, i, j) {
                        1usize
                    } else {
                        0usize
                    }
                },
    {
        let mut p_col: Vec<MapPoint> = Vec::new();
        let mut w_col: Vec<usize> = Vec::new();
        let mut f_col: Vec<usize> = Vec::new();
        let mut r_col: Vec<usize> = Vec::new();
        for y in 0..height
            invariant
                width == pathing@.len(),
                height == pathing@[0]@.len(),
                survey_ok(pathing@, placement@, height_map@, x_start, y_start, x_end, y_end),
                0 <= x < width,
                p_col@.len() == y,
                w_col@.len() == y,
                f_col@.len() == y,
                r_col@.len() == y,
                forall|j: int|
                    0 <= j < y ==> {
                        &&& #[trigger] p_col@[j] == first_point(
                            pathing@,
                            placement@,
                            height_map@,
                            x_start,
                            y_start,
                            x_end,
                            y_end,
                            x as int,
                            j,
                        )
                        &&& w_col@[j] == if walkable_at(pathing@, placement@, x as int, j) {
                            1usize
                        } else {
                            0usize
                        }
                        &&& r_col@[j] == w_col@[j]
                        &&& f_col@[j] == if pathable_at(
                            x_start,
                            y_start,
                            x_end,
                            y_end,
                            x as int,
                            j,
                        ) {
                            1usize
                        } else {
                            0usize
                        }
                    },
        {
            assert(pathing@[x as int]@.len() >= height);
            assert(placement@[x as int]@.len() >= height);
            assert(height_map@[x as int]@.len() >= height);
            let walkable = pathing[x][y] > 0 || placement[x][y] > 0;
            let pathable = x_start <= x && x <= x_end && y_start <= y && y <= y_end;
            let mut point = MapPoint::new();
            point.walkable = walkable;
            point.pathable = pathable;
            point.height = height_map[x][y];
            p_col.push(point);
            f_col.push(if pathable { 1 } else { 0 });
            w_col.push(if walkable { 1 } else { 0 });
            r_col.push(if walkable { 1 } else { 0 });
        }
        points.push(p_col);
        walk_map.push(w_col);
        fly_map.push(f_col);
        reaper_map.push(r_col);
    }
    (points, walk_map, fly_map, reaper_map)
}

/// The cell lies high enough over the cell above or below it to hide an overlord.
pub open spec fn overlord_candidate(pts: Seq<Vec<MapPoint>>, x: int, y: int) -> bool {
    let h = pts[x]@[y].height;
    let h0 = pts[x]@[y + 1].height;
    let h1 = pts[x]@[y - 1].height;
    (h >= h0 + DIFFERENCE && h0 > 0) || (h >= h1 + DIFFERENCE && h1 > 0)
}

/// One of the eight cells around the cell is walkable.
pub open spec fn next_to_walkable(pts: Seq<Vec<MapPoint>>, x: int, y: int) -> bool {
    ||| pts[x + 1]@[y + 1].walkable
    ||| pts[x - 1]@[y + 1].walkable
    ||| pts[x + 1]@[y].walkable
    ||| pts[x - 1]@[y].walkable
    ||| pts[x + 1]@[y - 1].walkable
    ||| pts[x - 1]@[y - 1].walkable
    ||| pts[x]@[y + 1].walkable
    ||| pts[x]@[y - 1].walkable
}

/// A cell as the second pass leaves it: an unwalkable cell of the inner area
/// becomes an overlord candidate when it towers over its vertical neighbours, and a
/// border when it touches a walkable cell.
pub open spec fn marked_point(
    pts: Seq<Vec<MapPoint>>,
    x_start: usize,
    y_start: usize,
    x_end: usize,
    y_end: usize,
    x: int,
    y: int,
) -> MapPoint {
    let p = pts[x]@[y];
    if inner_at(x_start, y_start, x_end, y_end, x, y) && !p.walkable {
        MapPoint {
            overlord_spot: p.overlord_spot || overlord_candidate(pts, x, y),
            is_border: p.is_border || next_to_walkable(pts, x, y),
            ..p
        }
    } else {
        p
    }
}

/// The inner area lies on the grid with a cell to spare on each side.
pub open spec fn area_ok(w: int, h: int, x_start: usize, y_start: usize, x_end: usize, y_end: usize) -> bool {
    &&& x_start >= 1
    &&& y_start >= 1
    &&& (x_start < x_end && y_start < y_end ==> x_end < w && y_end < h)
}

pub open spec fn points_heights_bounded(pts: Seq<Vec<MapPoint>>, w: int, h: int) -> bool {
    forall|x: int, y: int| 0 <= x < w && 0 <= y < h ==> #[trigger] pts[x]@[y].height + DIFFERENCE <= usize::MAX
}

/// Marks overlord candidates and borders among the unwalkable cells of the inner area.
pub fn second_pass(
    points: &mut Vec<Vec<MapPoint>>,
    x_start: usize,
    y_start: usize,
    x_end: usize,
    y_end: usize,
)
    requires
        old(points)@.len() > 0,
        point_dims(old(points)@, old(points)@.len() as int, old(points)@[0]@.len() as int),
        area_ok(old(points)@.len() as int, old(points)@[0]@.len() as int, x_start, y_start, x_end, y_end),
        points_heights_bounded(old(points)@, old(points)@.len() as int, old(points)@[0]@.len() as int),
    ensures
        point_dims(final(points)@, old(points)@.len() as int, old(points)@[0]@.len() as int),
        forall|x: int, y: int|
            0 <= x < old(points)@.len() && 0 <= y < old(points)@[0]@.len() ==> #[trigger] final(points)@[x]@[y]
                == marked_point(old(points)@, x_start, y_start, x_end, y_end, x, y),
{
    let ghost pts0 = points@;
    let ghost w = pts0.len() as int;
    let ghost h = pts0[0]@.len() as int;
    let mut x = x_start;
    while x < x_end
        invariant
            point_dims(pts0, w, h),
            w == pts0.len(),
            h == pts0[0]@.len(),
            area_ok(w, h, x_start, y_start, x_end, y_end),
            points_heights_bounded(pts0, w, h),
            x_start <= x,
            x <= x_end || x == x_start,
            point_dims(points@, w, h),
            forall|i: int, j: int|
                0 <= i < w && 0 <= j < h ==> #[trigger] points@[i]@[j] == if i < x {
                    marked_point(pts0, x_start, y_start, x_end, y_end, i, j)
                } else {
                    pts0[i]@[j]
                },
        decreases x_end - x,
    {
        let mut y = y_start;
        while y < y_end
            invariant
                point_dims(pts0, w, h),
                w == pts0.len(),
                h == pts0[0]@.len(),
                area_ok(w, h, x_start, y_start, x_end, y_end),
                points_heights_bounded(pts0, w, h),
                x_start <= x < x_end,
                y_start <= y,
                y <= y_end || y == y_start,
                point_dims(points@, w, h),
                forall|i: int, j: int|
                    0 <= i < w && 0 <= j < h ==> #[trigger] points@[i]@[j] == if i < x || (i == x
                        && j < y) {
                        marked_point(pts0, x_start, y_start, x_end, y_end, i, j)
                    } else {
                        pts0[i]@[j]
                    },
            decreases y_end - y,
        {
            let ghost before = points@;
            assert(points@[x as int]@.len() == h);
            assert(points@[x as int + 1]@.len() == h);
            assert(points@[x as int - 1]@.len() == h);
            if !points[x][y].walkable {
                let h0 = points[x][y + 1].height;
                let h1 = points[x][y - 1].height;
                let hc = points[x][y].height;
                assert(points@[x as int]@[y + 1] == pts0[x as int]@[y + 1]);
                assert(points@[x as int]@[y - 1] == marked_point(pts0, x_start, y_start, x_end, y_end, x as int, y - 1));
                if (hc >= h0 + DIFFERENCE && h0 > 0) || (hc >= h1 + DIFFERENCE && h1 > 0) {
                    points[x][y].overlord_spot = true;
                }
                let near = points[x + 1][y + 1].walkable || points[x - 1][y + 1].walkable
                    || points[x + 1][y].walkable || points[x - 1][y].walkable
                    || points[x + 1][y - 1].walkable || points[x - 1][y - 1].walkable
                    || points[x][y + 1].walkable || points[x][y - 1].walkable;
                proof {
                    assert(before[x as int + 1]@[y + 1] == pts0[x as int + 1]@[y + 1]);
                    assert(before[x as int + 1]@[y as int] == pts0[x as int + 1]@[y as int]);
                    assert(before[x as int + 1]@[y - 1] == pts0[x as int + 1]@[y - 1]);
                    assert(before[x as int - 1]@[y + 1] == marked_point(pts0, x_start, y_start, x_end, y_end, x - 1, y + 1));
                    assert(before[x as int - 1]@[y as int] == marked_point(pts0, x_start, y_start, x_end, y_end, x - 1, y as int));
                    assert(before[x as int - 1]@[y - 1] == marked_point(pts0, x_start, y_start, x_end, y_end, x - 1, y - 1));
                }
                if near {
                    points[x][y].is_border = true;
                }
            }
            proof {
                assert forall|i: int, j: int|
                    0 <= i < w && 0 <= j < h implies #[trigger] points@[i]@[j] == if i < x || (i == x
                        && j < y + 1) {
                        marked_point(pts0, x_start, y_start, x_end, y_end, i, j)
                    } else {
                        pts0[i]@[j]
                    } by {
                    assert(before[i]@[j] == if i < x || (i == x && j < y) {
                        marked_point(pts0, x_start, y_start, x_end, y_end, i, j)
                    } else {
                        pts0[i]@[j]
                    });
                }
            }
            y = y + 1;
        }
        proof {
            assert forall|i: int, j: int|
                0 <= i < w && 0 <= j < h implies #[trigger] points@[i]@[j] == if i < x + 1 {
                    marked_point(pts0, x_start, y_start, x_end, y_end, i, j)
                } else {
                    pts0[i]@[j]
                } by {
                if i == x && !(j < y) {
                    assert(!inner_at(x_start, y_start, x_end, y_end, i, j));
                }
            }
        }
        x = x + 1;
    }
}

} // verus!
