use vstd::prelude::*;
use std::collections::HashSet;
use crate::map_point::{Cliff, MapPoint};
use crate::map::{OverlordSpot, point_dims};
use crate::path_find::grid_dims;
use crate::grid::heights_of;
use crate::flood::{fill_ready, with_spot};
use crate::survey::{inner_at, area_ok};
use crate::scan::{flags_of, only_flags_changed, scan_step, scan_overlord};

verus! {

broadcast use vstd::std_specs::hash::group_hash_axioms;

/// The overlord scan of column `x` from row `y_start` up to, not including, row `y`.
pub open spec fn scan_column(
    hs: Seq<Seq<usize>>,
    st: (Seq<Seq<bool>>, Set<usize>, Seq<OverlordSpot>),
    x: int,
    y_start: int,
    y: int,
) -> (Seq<Seq<bool>>, Set<usize>, Seq<OverlordSpot>)
    decreases y - y_start,
{
    if y <= y_start {
        st
    } else {
        scan_step(hs, scan_column(hs, st, x, y_start, y - 1), x, y - 1)
    }
}

/// The overlord scan of columns `x_start` up to, not including, `x`, each over rows
/// `y_start..y_end`.
pub open spec fn scan_columns(
    hs: Seq<Seq<usize>>,
    st: (Seq<Seq<bool>>, Set<usize>, Seq<OverlordSpot>),
    x_start: int,
    y_start: int,
    y_end: int,
    x: int,
) -> (Seq<Seq<bool>>, Set<usize>, Seq<OverlordSpot>)
    decreases x - x_start,
{
    if x <= x_start {
        st
    } else {
        scan_column(hs, scan_columns(hs, st, x_start, y_start, y_end, x - 1), x - 1, y_start, y_end)
    }
}

/// The climbable flag of a cell after the third pass: inside the area a climbable
/// cell stays climbable only next to another climbable cell. Cells before it in the
/// scan are seen as the pass leaves them, cells after it as they were.
pub open spec fn climb_rule(
    a: Seq<Vec<MapPoint>>,
    b: Seq<Vec<MapPoint>>,
    x_start: usize,
    y_start: usize,
    x_end: usize,
    y_end: usize,
    x: int,
    y: int,
) -> bool {
    b[x]@[y].climbable == if inner_at(x_start, y_start, x_end, y_end, x, y) {
        a[x]@[y].climbable && (a[x + 1]@[y].climbable || b[x - 1]@[y].climbable || a[x]@[y
            + 1].climbable || b[x]@[y - 1].climbable)
    } else {
        a[x]@[y].climbable
    }
}

/// The cliff kind of a cell after the third pass: inside the area a cliff cell with
/// no side neighbour of the same kind becomes plain ground.
pub open spec fn cliff_rule(
    a: Seq<Vec<MapPoint>>,
    b: Seq<Vec<MapPoint>>,
    x_start: usize,
    y_start: usize,
    x_end: usize,
    y_end: usize,
    x: int,
    y: int,
) -> bool {
    let c = a[x]@[y].cliff_type;
    b[x]@[y].cliff_type == if inner_at(x_start, y_start, x_end, y_end, x, y) && c
        != Cliff::NoCliff && a[x + 1]@[y].cliff_type != c && b[x - 1]@[y].cliff_type != c && a[x]@[y
        + 1].cliff_type != c && b[x]@[y - 1].cliff_type != c {
        Cliff::NoCliff
    } else {
        c
    }
}

/// The reaper grid after the third pass: a cell inside the area that stays climbable
/// becomes passable for reapers.
pub open spec fn reaper_rule(
    ra: Seq<Vec<usize>>,
    rb: Seq<Vec<usize>>,
    b: Seq<Vec<MapPoint>>,
    x_start: usize,
    y_start: usize,
    x_end: usize,
    y_end: usize,
    x: int,
    y: int,
) -> bool {
    rb[x]@[y] == if inner_at(x_start, y_start, x_end, y_end, x, y) && b[x]@[y].climbable {
        1
    } else {
        ra[x]@[y]
    }
}

/// The fields that the third pass does not touch are kept.
pub open spec fn kept_fields(a: MapPoint, b: MapPoint) -> bool {
    &&& b.walkable == a.walkable
    &&& b.pathable == a.pathable
    &&& b.height == a.height
    &&& b.is_border == a.is_border
    &&& b.is_choke == a.is_choke
}

/// Everything the third pass promises of one cell.
pub open spec fn refined_cell(
    a: Seq<Vec<MapPoint>>,
    b: Seq<Vec<MapPoint>>,
    ra: Seq<Vec<usize>>,
    rb: Seq<Vec<usize>>,
    x_start: usize,
    y_start: usize,
    x_end: usize,
    y_end: usize,
    x: int,
    y: int,
) -> bool {
    &&& kept_fields(a[x]@[y], b[x]@[y])
    &&& climb_rule(a, b, x_start, y_start, x_end, y_end, x, y)
    &&& cliff_rule(a, b, x_start, y_start, x_end, y_end, x, y)
    &&& reaper_rule(ra, rb, b, x_start, y_start, x_end, y_end, x, y)
}

/// Inside the area, a cell stays climbable only next to a climbable cell; a cell
/// that stays climbable opens for reapers.
pub fn smooth_climbable(
    points: &mut Vec<Vec<MapPoint>>,
    reaper_map: &mut Vec<Vec<usize>>,
    x: usize,
    y: usize,
)
    requires
        1 <= x,
        x + 1 < old(points)@.len(),
        1 <= y,
        y + 1 < old(points)@[0]@.len(),
        point_dims(old(points)@, old(points)@.len() as int, old(points)@[0]@.len() as int),
        grid_dims(old(reaper_map)@, old(points)@.len() as int, old(points)@[0]@.len() as int),
    ensures
        final(points)@.len() == old(points)@.len(),
        forall|i: int|
            0 <= i < old(points)@.len() && i != x ==> #[trigger] final(points)@[i] == old(
                points,
            )@[i],
        final(points)@[x as int]@ == old(points)@[x as int]@.update(
            y as int,
            MapPoint {
                climbable: old(points)@[x as int]@[y as int].climbable && (old(points)@[x
                    + 1]@[y as int].climbable || old(points)@[x - 1]@[y as int].climbable || old(
                    points,
                )@[x as int]@[y + 1].climbable || old(points)@[x as int]@[y - 1].climbable),
                ..old(points)@[x as int]@[y as int]
            },
        ),
        final(reaper_map)@.len() == old(reaper_map)@.len(),
        forall|i: int|
            0 <= i < old(reaper_map)@.len() && i != x ==> #[trigger] final(reaper_map)@[i]
                == old(reaper_map)@[i],
        final(reaper_map)@[x as int]@ == if final(points)@[x as int]@[y as int].climbable {
            old(reaper_map)@[x as int]@.update(y as int, 1)
        } else {
            old(reaper_map)@[x as int]@
        },
{
    let width = points.len();
    let height = points[0].len();
    assert(x + 1 < width && y + 1 < height);
    assert(points@[x as int]@.len() == points@[0]@.len());
    assert(points@[x + 1]@.len() == points@[0]@.len());
    assert(points@[x - 1]@.len() == points@[0]@.len());
    assert(reaper_map@[x as int]@.len() == points@[0]@.len());
    if points[x][y].climbable {
        let climbable = points[x + 1][y].climbable || points[x - 1][y].climbable
            || points[x][y + 1].climbable || points[x][y - 1].climbable;
        points[x][y].climbable = climbable;
        if climbable {
            reaper_map[x][y] = 1;
        }
    }
}

/// Inside the area, a cliff cell with no side neighbour of the same kind becomes
/// plain ground.
pub fn prune_cliff(points: &mut Vec<Vec<MapPoint>>, x: usize, y: usize)
    requires
        1 <= x,
        x + 1 < old(points)@.len(),
        1 <= y,
        y + 1 < old(points)@[0]@.len(),
        point_dims(old(points)@, old(points)@.len() as int, old(points)@[0]@.len() as int),
    ensures
        final(points)@.len() == old(points)@.len(),
        forall|i: int|
            0 <= i < old(points)@.len() && i != x ==> #[trigger] final(points)@[i] == old(
                points,
            )@[i],
        final(points)@[x as int]@ == old(points)@[x as int]@.update(
            y as int,
            MapPoint {
                cliff_type: {
                    let c = old(points)@[x as int]@[y as int].cliff_type;
                    if c != Cliff::NoCliff && old(points)@[x + 1]@[y as int].cliff_type != c
                        && old(points)@[x - 1]@[y as int].cliff_type != c && old(points)@[x as int]@[y
                        + 1].cliff_type != c && old(points)@[x as int]@[y - 1].cliff_type != c {
                        Cliff::NoCliff
                    } else {
                        c
                    }
                },
                ..old(points)@[x as int]@[y as int]
            },
        ),
{
    let width = points.len();
    let height = points[0].len();
    assert(x + 1 < width && y + 1 < height);
    assert(points@[x as int]@.len() == points@[0]@.len());
    assert(points@[x + 1]@.len() == points@[0]@.len());
    assert(points@[x - 1]@.len() == points@[0]@.len());
    let c = points[x][y].cliff_type;
    if c != Cliff::NoCliff && points[x + 1][y].cliff_type != c && points[x - 1][y].cliff_type != c
        && points[x][y + 1].cliff_type != c && points[x][y - 1].cliff_type != c {
        points[x][y].cliff_type = Cliff::NoCliff;
    }
}

/// The cell `(i, j)` of the area comes before `(x, y)` in the scan.
pub open spec fn scanned_before(
    x_start: usize,
    y_start: usize,
    x_end: usize,
    y_end: usize,
    x: int,
    y: int,
    i: int,
    j: int,
) -> bool {
    inner_at(x_start, y_start, x_end, y_end, i, j) && (i < x || (i == x && j < y))
}

/// The state of a cell when the scan has reached `(x, y)`.
pub open spec fn refine_progress(
    a: Seq<Vec<MapPoint>>,
    b: Seq<Vec<MapPoint>>,
    ra: Seq<Vec<usize>>,
    rb: Seq<Vec<usize>>,
    x_start: usize,
    y_start: usize,
    x_end: usize,
    y_end: usize,
    x: int,
    y: int,
    i: int,
    j: int,
) -> bool {
    &&& kept_fields(a[i]@[j], b[i]@[j])
    &&& if scanned_before(x_start, y_start, x_end, y_end, x, y, i, j) {
        &&& climb_rule(a, b, x_start, y_start, x_end, y_end, i, j)
        &&& cliff_rule(a, b, x_start, y_start, x_end, y_end, i, j)
        &&& reaper_rule(ra, rb, b, x_start, y_start, x_end, y_end, i, j)
    } else {
        &&& b[i]@[j].climbable == a[i]@[j].climbable
        &&& b[i]@[j].cliff_type == a[i]@[j].cliff_type
        &&& rb[i]@[j] == ra[i]@[j]
    }
}

proof fn lemma_refine_step(
    a: Seq<Vec<MapPoint>>,
    b: Seq<Vec<MapPoint>>,
    b2: Seq<Vec<MapPoint>>,
    ra: Seq<Vec<usize>>,
    rb: Seq<Vec<usize>>,
    rb2: Seq<Vec<usize>>,
    x_start: usize,
    y_start: usize,
    x_end: usize,
    y_end: usize,
    w: int,
    h: int,
    x: int,
    y: int,
)
    requires
        area_ok(w, h, x_start, y_start, x_end, y_end),
        inner_at(x_start, y_start, x_end, y_end, x, y),
        forall|i: int, j: int|
            0 <= i < w && 0 <= j < h ==> #[trigger] refine_progress(
                a,
                b,
                ra,
                rb,
                x_start,
                y_start,
                x_end,
                y_end,
                x,
                y,
                i,
                j,
            ),
        forall|i: int, j: int|
            0 <= i < w && 0 <= j < h && (i, j) != (x, y) ==> {
                &&& kept_fields(b[i]@[j], #[trigger] b2[i]@[j])
                &&& b2[i]@[j].climbable == b[i]@[j].climbable
                &&& b2[i]@[j].cliff_type == b[i]@[j].cliff_type
                &&& rb2[i]@[j] == rb[i]@[j]
            },
        kept_fields(b[x]@[y], b2[x]@[y]),
        b2[x]@[y].climbable == (b[x]@[y].climbable && (b[x + 1]@[y].climbable || b[x
            - 1]@[y].climbable || b[x]@[y + 1].climbable || b[x]@[y - 1].climbable)),
        b2[x]@[y].cliff_type == {
            let c = b[x]@[y].cliff_type;
            if c != Cliff::NoCliff && b[x + 1]@[y].cliff_type != c && b[x - 1]@[y].cliff_type
                != c && b[x]@[y + 1].cliff_type != c && b[x]@[y - 1].cliff_type != c {
                Cliff::NoCliff
            } else {
                c
            }
        },
        rb2[x]@[y] == if b2[x]@[y].climbable {
            1
        } else {
            rb[x]@[y]
        },
    ensures
        forall|i: int, j: int|
            0 <= i < w && 0 <= j < h ==> #[trigger] refine_progress(
                a,
                b2,
                ra,
                rb2,
                x_start,
                y_start,
                x_end,
                y_end,
                x,
                y + 1,
                i,
                j,
            ),
{
    assert(refine_progress(a, b, ra, rb, x_start, y_start, x_end, y_end, x, y, x, y));
    assert(refine_progress(a, b, ra, rb, x_start, y_start, x_end, y_end, x, y, x + 1, y));
    assert(refine_progress(a, b, ra, rb, x_start, y_start, x_end, y_end, x, y, x - 1, y));
    assert(refine_progress(a, b, ra, rb, x_start, y_start, x_end, y_end, x, y, x, y + 1));
    assert(refine_progress(a, b, ra, rb, x_start, y_start, x_end, y_end, x, y, x, y - 1));
    assert forall|i: int, j: int| 0 <= i < w && 0 <= j < h implies #[trigger] refine_progress(
        a,
        b2,
        ra,
        rb2,
        x_start,
        y_start,
        x_end,
        y_end,
        x,
        y + 1,
        i,
        j,
    ) by {
        assert(refine_progress(a, b, ra, rb, x_start, y_start, x_end, y_end, x, y, i, j));
        if (i, j) != (x, y) {
            assert(kept_fields(b[i]@[j], b2[i]@[j]));
            if scanned_before(x_start, y_start, x_end, y_end, x, y, i, j) {
                assert(refine_progress(a, b, ra, rb, x_start, y_start, x_end, y_end, x, y, i - 1, j));
                assert(refine_progress(a, b, ra, rb, x_start, y_start, x_end, y_end, x, y, i, j - 1));
                assert(refine_progress(a, b, ra, rb, x_start, y_start, x_end, y_end, x, y, i + 1, j));
                assert(refine_progress(a, b, ra, rb, x_start, y_start, x_end, y_end, x, y, i, j + 1));
                assert((i - 1, j) != (x, y));
                assert((i, j - 1) != (x, y));
            }
        }
    }
}

/// The third pass over the inner area, cell by cell: climbable cells are smoothed,
/// lone cliff cells pruned, and overlord spots found. Returns the spots.
pub fn refine_points(
    points: &mut Vec<Vec<MapPoint>>,
    reaper_map: &mut Vec<Vec<usize>>,
    x_start: usize,
    y_start: usize,
    x_end: usize,
    y_end: usize,
) -> (spots: Vec<OverlordSpot>)
    requires
        fill_ready(old(points)@),
        point_dims(old(points)@, old(points)@.len() as int, old(points)@[0]@.len() as int),
        area_ok(
            old(points)@.len() as int,
            old(points)@[0]@.len() as int,
            x_start,
            y_start,
            x_end,
            y_end,
        ),
        grid_dims(old(reaper_map)@, old(points)@.len() as int, old(points)@[0]@.len() as int),
    ensures
        point_dims(final(points)@, old(points)@.len() as int, old(points)@[0]@.len() as int),
        grid_dims(final(reaper_map)@, old(points)@.len() as int, old(points)@[0]@.len() as int),
        forall|i: int, j: int|
            0 <= i < old(points)@.len() && 0 <= j < old(points)@[0]@.len() ==> #[trigger] refined_cell(
                old(points)@,
                final(points)@,
                old(reaper_map)@,
                final(reaper_map)@,
                x_start,
                y_start,
                x_end,
                y_end,
                i,
                j,
            ),
        flags_of(final(points)@) =~~= scan_columns(
            heights_of(old(points)@),
            (flags_of(old(points)@), Set::empty(), Seq::empty()),
            x_start as int,
            y_start as int,
            y_end as int,
            x_end as int,
        ).0,
        spots@ == scan_columns(
            heights_of(old(points)@),
            (flags_of(old(points)@), Set::empty(), Seq::empty()),
            x_start as int,
            y_start as int,
            y_end as int,
            x_end as int,
        ).2,
{
    let ghost a = points@;
    let ghost ra = reaper_map@;
    let ghost hs = heights_of(a);
    let ghost w = a.len() as int;
    let ghost h = a[0]@.len() as int;
    let ghost init = (flags_of(a), Set::<usize>::empty(), Seq::<OverlordSpot>::empty());
    let mut handled: HashSet<usize> = HashSet::new();
    let mut spots: Vec<OverlordSpot> = Vec::new();
    proof {
        assert forall|i: int, j: int| 0 <= i < w && 0 <= j < h implies #[trigger] refine_progress(
            a,
            a,
            ra,
            ra,
            x_start,
            y_start,
            x_end,
            y_end,
            x_start as int,
            y_start as int,
            i,
            j,
        ) by {}
    }
    let mut x = x_start;
    while x < x_end
        invariant
            w == a.len(),
            h == a[0]@.len(),
            hs == heights_of(a),
            fill_ready(a),
            point_dims(a, w, h),
            area_ok(w, h, x_start, y_start, x_end, y_end),
            x_start <= x,
            x <= x_end || x == x_start,
            point_dims(points@, w, h),
            grid_dims(reaper_map@, w, h),
            heights_of(points@) == hs,
            forall|i: int, j: int|
                0 <= i < w && 0 <= j < h ==> #[trigger] refine_progress(
                    a,
                    points@,
                    ra,
                    reaper_map@,
                    x_start,
                    y_start,
                    x_end,
                    y_end,
                    x as int,
                    y_start as int,
                    i,
                    j,
                ),
            flags_of(points@) =~~= scan_columns(hs, init, x_start as int, y_start as int, y_end as int, x as int).0,
            handled@ == scan_columns(hs, init, x_start as int, y_start as int, y_end as int, x as int).1,
            spots@ == scan_columns(hs, init, x_start as int, y_start as int, y_end as int, x as int).2,
        decreases x_end - x,
    {
        let ghost col_start = scan_columns(hs, init, x_start as int, y_start as int, y_end as int, x as int);
        let mut y = y_start;
        while y < y_end
            invariant
                w == a.len(),
                h == a[0]@.len(),
                hs == heights_of(a),
                fill_ready(a),
                point_dims(a, w, h),
                area_ok(w, h, x_start, y_start, x_end, y_end),
                x_start <= x < x_end,
                y_start <= y,
                y <= y_end || y == y_start,
                point_dims(points@, w, h),
                grid_dims(reaper_map@, w, h),
                heights_of(points@) == hs,
                forall|i: int, j: int|
                    0 <= i < w && 0 <= j < h ==> #[trigger] refine_progress(
                        a,
                        points@,
                        ra,
                        reaper_map@,
                        x_start,
                        y_start,
                        x_end,
                        y_end,
                        x as int,
                        y as int,
                        i,
                        j,
                    ),
                col_start == scan_columns(hs, init, x_start as int, y_start as int, y_end as int, x as int),
                flags_of(points@) =~~= scan_column(hs, col_start, x as int, y_start as int, y as int).0,
                handled@ == scan_column(hs, col_start, x as int, y_start as int, y as int).1,
                spots@ == scan_column(hs, col_start, x as int, y_start as int, y as int).2,
            decreases y_end - y,
        {
            let ghost b = points@;
            let ghost rb = reaper_map@;
            smooth_climbable(points, reaper_map, x, y);
            let ghost b1 = points@;
            prune_cliff(points, x, y);
            let ghost b2 = points@;
            let ghost rb2 = reaper_map@;
            proof {
                assert(b1[x as int]@.len() == h);
                assert(b[x as int]@.len() == h);
                assert forall|i: int| 0 <= i < w implies #[trigger] heights_of(b2)[i] =~= hs[i] by {
                    assert(heights_of(b)[i] == hs[i]);
                    assert(b2[i]@.len() == h);
                    assert(b[i]@.len() == h);
                }
                assert(heights_of(b2) =~= hs);
                assert forall|i: int| 0 <= i < w implies #[trigger] flags_of(b2)[i] =~= flags_of(b)[i] by {
                    assert(b2[i]@.len() == h);
                    assert(b[i]@.len() == h);
                }
                assert(flags_of(b2) =~~= flags_of(b));
                assert(point_dims(b2, w, h)) by {
                    assert forall|i: int| 0 <= i < w implies #[trigger] b2[i]@.len() == h by {
                        assert(b[i]@.len() == h);
                    }
                }
            }
            scan_overlord(points, &mut handled, &mut spots, x, y);
            proof {
                let b3 = points@;
                assert(only_flags_changed(b2, b3));
                assert forall|i: int| 0 <= i < w implies #[trigger] b3[i]@.len() == h by {
                    assert(b2[i]@.len() == h);
                }
                assert forall|i: int, j: int|
                    0 <= i < w && 0 <= j < h && (i, j) != (x as int, y as int) implies {
                        &&& kept_fields(b[i]@[j], #[trigger] b3[i]@[j])
                        &&& b3[i]@[j].climbable == b[i]@[j].climbable
                        &&& b3[i]@[j].cliff_type == b[i]@[j].cliff_type
                        &&& rb2[i]@[j] == rb[i]@[j]
                    } by {
                    assert(b3[i]@[j] == with_spot(b2[i]@[j], b3[i]@[j].overlord_spot));
                    if i != x {
                        assert(b2[i] == b[i]);
                        assert(rb2[i] == rb[i]);
                    } else {
                        assert(b2[i]@[j] == b[i]@[j]);
                        assert(rb2[i]@[j] == rb[i]@[j]);
                    }
                }
                assert(b3[x as int]@[y as int] == with_spot(b2[x as int]@[y as int], b3[x as int]@[y as int].overlord_spot));
                assert(b[x + 1]@[y as int] == b1[x + 1]@[y as int]);
                assert(b[x - 1]@[y as int] == b1[x - 1]@[y as int]);
                assert(b[x as int]@[y + 1] == b1[x as int]@[y + 1]);
                assert(b[x as int]@[y - 1] == b1[x as int]@[y - 1]);
                lemma_refine_step(a, b, b3, ra, rb, rb2, x_start, y_start, x_end, y_end, w, h, x as int, y as int);
            }
            y = y + 1;
        }
        proof {
            assert forall|i: int, j: int| 0 <= i < w && 0 <= j < h implies #[trigger] refine_progress(
                a,
                points@,
                ra,
                reaper_map@,
                x_start,
                y_start,
                x_end,
                y_end,
                x + 1,
                y_start as int,
                i,
                j,
            ) by {
                assert(refine_progress(a, points@, ra, reaper_map@, x_start, y_start, x_end, y_end, x as int, y as int, i, j));
            }
        }
        x = x + 1;
    }
    proof {
        assert forall|i: int, j: int| 0 <= i < w && 0 <= j < h implies #[trigger] refined_cell(
            a,
            points@,
            ra,
            reaper_map@,
            x_start,
            y_start,
            x_end,
            y_end,
            i,
            j,
        ) by {
            assert(refine_progress(a, points@, ra, reaper_map@, x_start, y_start, x_end, y_end, x as int, y_start as int, i, j));
            if inner_at(x_start, y_start, x_end, y_end, i, j) {
                assert(refine_progress(a, points@, ra, reaper_map@, x_start, y_start, x_end, y_end, x as int, y_start as int, i - 1, j));
                assert(refine_progress(a, points@, ra, reaper_map@, x_start, y_start, x_end, y_end, x as int, y_start as int, i, j - 1));
            }
        }
    }
    spots
}

} // verus!
