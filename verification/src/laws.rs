use vstd::prelude::*;
use crate::grid::in_grid;
use crate::flood::{is_fill_path, fill_reaches, fill_result, link};
use crate::scan::{plateau_keys, spot_of, scan_step, flags_filled, sum_x_step, sum_y_step, lemma_sum_steps_commute, flags_of};
use crate::map::OverlordSpot;
use crate::refine::{scan_column, scan_columns};
use crate::grid::{key_x, key_y, key_of, keyable, is_rect, width_of, height_of, heights_of, lemma_key_roundtrip, lemma_key_decode, Y_MULT};
use crate::flood::{grid_keys, lemma_grid_keys_finite, lemma_below_finite, lemma_reach_self};
use crate::map::{GameMap, constructed, built_from, second_pass_grid};
use crate::map_point::MapPoint;
use crate::survey::{marked_point, inner_at, area_ok};
use crate::refine::refined_cell;

verus! {

/// A walk from a start over cells that all have the target height, read backwards.
proof fn lemma_reverse(hs: Seq<Seq<usize>>, t: int, path: Seq<(int, int)>)
    requires
        is_fill_path(hs, t, Set::empty(), path),
        hs[path.last().0][path.last().1] == t,
    ensures
        is_fill_path(hs, t, Set::empty(), path.reverse()),
        path.reverse()[0] == path.last(),
        path.reverse().last() == path[0],
{
    let r = path.reverse();
    let n = path.len();
    assert forall|i: int| 0 <= i < r.len() implies in_grid(hs, r[i].0, r[i].1) && !crate::grid::seen(
        Set::empty(),
        r[i].0,
        r[i].1,
    ) by {
        assert(r[i] == path[n - 1 - i]);
    }
    assert forall|i: int| 0 <= i < r.len() - 1 implies #[trigger] link(hs, t, r, i) by {
        assert(r[i] == path[n - 1 - i]);
        assert(r[i + 1] == path[n - 2 - i]);
        assert(link(hs, t, path, n - 2 - i));
        if n - 1 - i < n - 1 {
            assert(link(hs, t, path, n - 1 - i));
        }
    }
}

/// Two walks joined where the first ends on a cell of the target height and the
/// second starts.
proof fn lemma_join(hs: Seq<Seq<usize>>, t: int, a: Seq<(int, int)>, b: Seq<(int, int)>)
    requires
        is_fill_path(hs, t, Set::empty(), a),
        is_fill_path(hs, t, Set::empty(), b),
        a.last() == b[0],
        hs[a.last().0][a.last().1] == t,
    ensures
        is_fill_path(hs, t, Set::empty(), a + b.drop_first()),
        (a + b.drop_first())[0] == a[0],
        (a + b.drop_first()).last() == b.last(),
{
    let c = a + b.drop_first();
    assert forall|i: int| 0 <= i < c.len() implies in_grid(hs, c[i].0, c[i].1) && !crate::grid::seen(
        Set::empty(),
        c[i].0,
        c[i].1,
    ) by {
        if i >= a.len() {
            assert(c[i] == b[i - a.len() + 1]);
        }
    }
    assert forall|i: int| 0 <= i < c.len() - 1 implies #[trigger] link(hs, t, c, i) by {
        if i < a.len() - 1 {
            assert(link(hs, t, a, i));
        } else {
            let k = i - a.len() + 1;
            assert(link(hs, t, b, k));
            assert(c[i + 1] == b[k + 1]);
            if i == a.len() - 1 {
                assert(c[i] == b[0]);
            } else {
                assert(c[i] == b[k]);
            }
        }
    }
    if b.len() == 1 {
        assert(c =~= a);
    }
}

/// A fill with nothing recorded from any cell of a plateau visits the same cells and
/// reaches the same verdict as a fill from any other cell of that plateau.
pub proof fn lemma_plateau_from_any_cell(
    hs: Seq<Seq<usize>>,
    p: (int, int),
    p2: (int, int),
)
    requires
        in_grid(hs, p.0, p.1),
        fill_reaches(hs, hs[p.0][p.1] as int, Set::empty(), p, p2),
        hs[p2.0][p2.1] == hs[p.0][p.1],
    ensures
        forall|q: (int, int)|
            #[trigger] fill_reaches(hs, hs[p.0][p.1] as int, Set::empty(), p, q) == fill_reaches(
                hs,
                hs[p.0][p.1] as int,
                Set::empty(),
                p2,
                q,
            ),
        plateau_keys(hs, p.0, p.1) == plateau_keys(hs, p2.0, p2.1),
        fill_result(hs, hs[p.0][p.1] as int, Set::empty(), p) == fill_result(
            hs,
            hs[p2.0][p2.1] as int,
            Set::empty(),
            p2,
        ),
{
    let t = hs[p.0][p.1] as int;
    let e = Set::<usize>::empty();
    let to_p2 = choose|path: Seq<(int, int)>|
        #[trigger] is_fill_path(hs, t, e, path) && path[0] == p && path.last() == p2;
    assert(to_p2[0] == p);
    lemma_reverse(hs, t, to_p2);
    let back = to_p2.reverse();
    assert forall|q: (int, int)|
        #[trigger] fill_reaches(hs, t, e, p, q) == fill_reaches(hs, t, e, p2, q) by {
        if fill_reaches(hs, t, e, p, q) {
            let path = choose|path: Seq<(int, int)>|
                #[trigger] is_fill_path(hs, t, e, path) && path[0] == p && path.last() == q;
            lemma_join(hs, t, back, path);
        }
        if fill_reaches(hs, t, e, p2, q) {
            let path = choose|path: Seq<(int, int)>|
                #[trigger] is_fill_path(hs, t, e, path) && path[0] == p2 && path.last() == q;
            lemma_join(hs, t, to_p2, path);
        }
    }
    assert(fill_result(hs, t, e, p) == fill_result(hs, t, e, p2)) by {
        assert forall|x: int, y: int|
            fill_reaches(hs, t, e, p, (x, y)) == fill_reaches(hs, t, e, p2, (x, y)) by {
            assert(fill_reaches(hs, t, e, p, (x, y)) == fill_reaches(hs, t, e, p2, (x, y)));
        }
    }
    assert(plateau_keys(hs, p.0, p.1) =~= plateau_keys(hs, p2.0, p2.1)) by {
        assert forall|k: usize| plateau_keys(hs, p.0, p.1).contains(k) == plateau_keys(
            hs,
            p2.0,
            p2.1,
        ).contains(k) by {
            let q = (crate::grid::key_x(k), crate::grid::key_y(k));
            assert(fill_reaches(hs, t, e, p, q) == fill_reaches(hs, t, e, p2, q));
        }
    }
}

/// The pathing grids of `m` agree with its point at `(x, y)`.
pub open spec fn grids_match_point(m: GameMap, x: int, y: int) -> bool {
    &&& (m.ground_pathing.map@[x]@[y] == 1) == m.points@[x]@[y].walkable
    &&& (m.air_pathing.map@[x]@[y] == 1) == m.points@[x]@[y].pathable
    &&& m.ground_pathing.map@[x]@[y] == 1 ==> m.reaper_pathing.map@[x]@[y] == 1
    &&& m.ground_pathing.map@[x]@[y] == 1 ==> m.colossus_pathing.map@[x]@[y] == 1
}

/// On a map that `GameMap::new` built, ground units may go exactly on the walkable
/// points and air units exactly over the playable points; reapers and colossi may go
/// wherever ground units may.
pub proof fn lemma_grids_match_points(
    m: GameMap,
    pathing: Seq<Vec<usize>>,
    placement: Seq<Vec<usize>>,
    height_map: Seq<Vec<usize>>,
    x_start: usize,
    y_start: usize,
    x_end: usize,
    y_end: usize,
)
    requires
        constructed(m, pathing, placement, height_map, x_start, y_start, x_end, y_end),
    ensures
        forall|x: int, y: int|
            0 <= x < m.width() && 0 <= y < m.height() ==> #[trigger] grids_match_point(m, x, y),
{
    let (p1, p2) = choose|p1: Seq<Vec<MapPoint>>, p2: Seq<Vec<MapPoint>>|
        #[trigger] built_from(
            m,
            pathing,
            placement,
            height_map,
            x_start,
            y_start,
            x_end,
            y_end,
            p1,
            p2,
        );
    assert forall|x: int, y: int| 0 <= x < m.width() && 0 <= y < m.height() implies #[trigger] grids_match_point(m, x, y) by {
        assert(p1[x]@[y] == crate::survey::first_point(
            pathing,
            placement,
            height_map,
            x_start,
            y_start,
            x_end,
            y_end,
            x,
            y,
        ));
        assert(p2[x]@[y] == marked_point(p1, x_start, y_start, x_end, y_end, x, y));
        assert(refined_cell(
            p2,
            m.points@,
            m.ground_pathing.map@,
            m.reaper_pathing.map@,
            x_start,
            y_start,
            x_end,
            y_end,
            x,
            y,
        ));
        assert(m.colossus_pathing.map@[x]@ == m.reaper_pathing.map@[x]@);
    }
}

/// The second pass leaves a grid it has already marked as it is.
pub proof fn lemma_second_pass_idempotent(
    p1: Seq<Vec<MapPoint>>,
    p2: Seq<Vec<MapPoint>>,
    p3: Seq<Vec<MapPoint>>,
    x_start: usize,
    y_start: usize,
    x_end: usize,
    y_end: usize,
)
    requires
        p1.len() > 0,
        area_ok(p1.len() as int, p1[0]@.len() as int, x_start, y_start, x_end, y_end),
        second_pass_grid(p1, p2, x_start, y_start, x_end, y_end),
        second_pass_grid(p2, p3, x_start, y_start, x_end, y_end),
    ensures
        forall|x: int, y: int|
            0 <= x < p1.len() && 0 <= y < p1[0]@.len() ==> #[trigger] p3[x]@[y] == p2[x]@[y],
{
    let w = p1.len() as int;
    let h = p1[0]@.len() as int;
    assert(p2[0]@.len() == h);
    assert forall|x: int, y: int| 0 <= x < w && 0 <= y < h implies #[trigger] p3[x]@[y] == p2[x]@[y] by {
        assert(p3[x]@[y] == marked_point(p2, x_start, y_start, x_end, y_end, x, y));
        assert(p2[x]@[y] == marked_point(p1, x_start, y_start, x_end, y_end, x, y));
        if inner_at(x_start, y_start, x_end, y_end, x, y) {
            assert(p2[x + 1]@[y + 1] == marked_point(p1, x_start, y_start, x_end, y_end, x + 1, y + 1));
            assert(p2[x - 1]@[y + 1] == marked_point(p1, x_start, y_start, x_end, y_end, x - 1, y + 1));
            assert(p2[x + 1]@[y] == marked_point(p1, x_start, y_start, x_end, y_end, x + 1, y));
            assert(p2[x - 1]@[y] == marked_point(p1, x_start, y_start, x_end, y_end, x - 1, y));
            assert(p2[x + 1]@[y - 1] == marked_point(p1, x_start, y_start, x_end, y_end, x + 1, y - 1));
            assert(p2[x - 1]@[y - 1] == marked_point(p1, x_start, y_start, x_end, y_end, x - 1, y - 1));
            assert(p2[x]@[y + 1] == marked_point(p1, x_start, y_start, x_end, y_end, x, y + 1));
            assert(p2[x]@[y - 1] == marked_point(p1, x_start, y_start, x_end, y_end, x, y - 1));
        }
    }
}

/// The spot has at least one cell and its centre lies on a `w` by `h` grid.
pub open spec fn spot_on_grid(s: OverlordSpot, w: int, h: int) -> bool {
    &&& s.count >= 1
    &&& s.sum_x <= s.count * (w - 1)
    &&& s.sum_y <= s.count * (h - 1)
}

pub open spec fn spots_on_grid(spots: Seq<OverlordSpot>, w: int, h: int) -> bool {
    forall|i: int| 0 <= i < spots.len() ==> #[trigger] spot_on_grid(spots[i], w, h)
}

proof fn lemma_fold_bounds(ks: Set<usize>, w: int, h: int)
    requires
        ks.finite(),
        w >= 1,
        h >= 1,
        forall|k: usize| ks.contains(k) ==> key_x(k) < w && key_y(k) < h,
    ensures
        0 <= ks.fold(0int, sum_x_step()) <= ks.len() * (w - 1),
        0 <= ks.fold(0int, sum_y_step()) <= ks.len() * (h - 1),
    decreases ks.len(),
{
    lemma_sum_steps_commute();
    if ks.len() == 0 {
        assert(ks =~= Set::<usize>::empty());
        vstd::set::fold::lemma_fold_empty(0int, sum_x_step());
        vstd::set::fold::lemma_fold_empty(0int, sum_y_step());
    } else {
        let k = ks.choose();
        let r = ks.remove(k);
        lemma_fold_bounds(r, w, h);
        assert(r.insert(k) =~= ks);
        vstd::set::fold::lemma_fold_insert(r, 0int, sum_x_step(), k);
        vstd::set::fold::lemma_fold_insert(r, 0int, sum_y_step(), k);
        lemma_key_decode(k);
        assert(r.len() * (w - 1) + (w - 1) == ks.len() * (w - 1)) by (nonlinear_arith)
            requires
                r.len() + 1 == ks.len(),
        ;
        assert(r.len() * (h - 1) + (h - 1) == ks.len() * (h - 1)) by (nonlinear_arith)
            requires
                r.len() + 1 == ks.len(),
        ;
    }
}

/// The spot of a plateau has at least one cell and its centre lies on the grid.
proof fn lemma_plateau_spot(hs: Seq<Seq<usize>>, x: int, y: int)
    requires
        hs.len() > 0,
        is_rect(hs),
        keyable(hs),
        in_grid(hs, x, y),
    ensures
        spot_on_grid(spot_of(plateau_keys(hs, x, y)), width_of(hs), height_of(hs)),
{
    let w = width_of(hs);
    let h = height_of(hs);
    let ks = plateau_keys(hs, x, y);
    let g = grid_keys(w, h);
    lemma_grid_keys_finite(w, h);
    assert(ks.subset_of(g));
    vstd::set_lib::lemma_len_subset(ks, g);
    // the start cell is in its own plateau
    lemma_key_roundtrip(hs, x, y);
    lemma_reach_self(hs, hs[x][y] as int, Set::empty(), (x, y));
    assert(ks.contains(key_of(x, y) as usize));
    assert(ks.len() >= 1) by {
        if ks.len() == 0 {
            assert(ks =~= Set::<usize>::empty());
        }
    }
    // there are fewer keys than a usize counts
    assert(h * (Y_MULT as int) <= usize::MAX) by (nonlinear_arith)
        requires
            h * (Y_MULT as int) <= usize::MAX + 1,
            usize::MAX == u32::MAX || usize::MAX == u64::MAX,
    ;
    let n = (h * (Y_MULT as int)) as nat;
    lemma_below_finite(n);
    assert forall|k: usize| ks.contains(k) implies Set::new(|k: usize| k < n).contains(k) by {
        lemma_key_decode(k);
        assert(key_y(k) * (Y_MULT as int) <= (h - 1) * (Y_MULT as int)) by (nonlinear_arith)
            requires
                key_y(k) <= h - 1,
        ;
    }
    vstd::set_lib::lemma_len_subset(ks, Set::new(|k: usize| k < n));
    lemma_fold_bounds(ks, w, h);
    assert(ks.len() * (w - 1) <= (usize::MAX as int) * (Y_MULT as int)) by (nonlinear_arith)
        requires
            ks.len() <= usize::MAX,
            0 <= w - 1 <= Y_MULT,
    ;
    assert(ks.len() * (h - 1) <= (usize::MAX as int) * (usize::MAX as int)) by (nonlinear_arith)
        requires
            ks.len() <= usize::MAX,
            0 <= h - 1 <= usize::MAX,
    ;
    assert((usize::MAX as int) * (usize::MAX as int) <= u128::MAX) by (nonlinear_arith)
        requires
            usize::MAX <= u64::MAX,
    ;
    assert((usize::MAX as int) * (Y_MULT as int) <= u128::MAX) by (nonlinear_arith)
        requires
            usize::MAX <= u64::MAX,
    ;
}

proof fn lemma_scan_step_spots(
    hs: Seq<Seq<usize>>,
    st: (Seq<Seq<bool>>, Set<usize>, Seq<OverlordSpot>),
    x: int,
    y: int,
)
    requires
        hs.len() > 0,
        is_rect(hs),
        keyable(hs),
        in_grid(hs, x, y),
        spots_on_grid(st.2, width_of(hs), height_of(hs)),
    ensures
        spots_on_grid(scan_step(hs, st, x, y).2, width_of(hs), height_of(hs)),
{
    lemma_plateau_spot(hs, x, y);
    let out = scan_step(hs, st, x, y).2;
    assert forall|i: int| 0 <= i < out.len() implies #[trigger] spot_on_grid(
        out[i],
        width_of(hs),
        height_of(hs),
    ) by {
        if i < st.2.len() {
            assert(out[i] == st.2[i]);
        }
    }
}

proof fn lemma_scan_column_spots(
    hs: Seq<Seq<usize>>,
    st: (Seq<Seq<bool>>, Set<usize>, Seq<OverlordSpot>),
    x: int,
    y_start: int,
    y: int,
)
    requires
        hs.len() > 0,
        is_rect(hs),
        keyable(hs),
        y_start < y ==> 0 <= x < width_of(hs) && 0 <= y_start && y <= height_of(hs),
        spots_on_grid(st.2, width_of(hs), height_of(hs)),
    ensures
        spots_on_grid(scan_column(hs, st, x, y_start, y).2, width_of(hs), height_of(hs)),
    decreases y - y_start,
{
    if y > y_start {
        lemma_scan_column_spots(hs, st, x, y_start, y - 1);
        lemma_scan_step_spots(hs, scan_column(hs, st, x, y_start, y - 1), x, y - 1);
    }
}

proof fn lemma_scan_columns_spots(
    hs: Seq<Seq<usize>>,
    st: (Seq<Seq<bool>>, Set<usize>, Seq<OverlordSpot>),
    x_start: int,
    y_start: int,
    y_end: int,
    x: int,
)
    requires
        hs.len() > 0,
        is_rect(hs),
        keyable(hs),
        x_start < x && y_start < y_end ==> 0 <= x_start && x <= width_of(hs) && 0 <= y_start
            && y_end <= height_of(hs),
        spots_on_grid(st.2, width_of(hs), height_of(hs)),
    ensures
        spots_on_grid(scan_columns(hs, st, x_start, y_start, y_end, x).2, width_of(hs), height_of(hs)),
    decreases x - x_start,
{
    if x > x_start {
        lemma_scan_columns_spots(hs, st, x_start, y_start, y_end, x - 1);
        lemma_scan_column_spots(
            hs,
            scan_columns(hs, st, x_start, y_start, y_end, x - 1),
            x - 1,
            y_start,
            y_end,
        );
    }
}

/// Every overlord spot of a map that `GameMap::new` built has at least one cell,
/// and its centre lies on the map.
pub proof fn lemma_spots_on_map(
    m: GameMap,
    pathing: Seq<Vec<usize>>,
    placement: Seq<Vec<usize>>,
    height_map: Seq<Vec<usize>>,
    x_start: usize,
    y_start: usize,
    x_end: usize,
    y_end: usize,
)
    requires
        constructed(m, pathing, placement, height_map, x_start, y_start, x_end, y_end),
        crate::survey::survey_ok(pathing, placement, height_map, x_start, y_start, x_end, y_end),
        crate::map::keyable_dims(pathing.len() as int, pathing[0]@.len() as int),
    ensures
        spots_on_grid(m.overlord_spots@, m.width(), m.height()),
{
    let (p1, p2) = choose|p1: Seq<Vec<MapPoint>>, p2: Seq<Vec<MapPoint>>|
        #[trigger] built_from(
            m,
            pathing,
            placement,
            height_map,
            x_start,
            y_start,
            x_end,
            y_end,
            p1,
            p2,
        );
    let hs = heights_of(p2);
    let w = pathing.len() as int;
    let h = pathing[0]@.len() as int;
    assert(p1.len() == w && p1[0]@.len() == h);
    assert(p2.len() == w && p2[0]@.len() == h);
    assert forall|i: int| 0 <= i < hs.len() implies #[trigger] hs[i].len() == height_of(hs) by {
        assert(p2[i]@.len() == h);
    }
    assert(spots_on_grid(Seq::<OverlordSpot>::empty(), w, h));
    lemma_scan_columns_spots(
        hs,
        (flags_of(p2), Set::empty(), Seq::empty()),
        x_start as int,
        y_start as int,
        y_end as int,
        x_end as int,
    );
}

/// The cell at which the overlord scan's step at `(x, y)` starts a new spot, if it does.
pub open spec fn spot_start_step(
    hs: Seq<Seq<usize>>,
    st: (Seq<Seq<bool>>, Set<usize>, Seq<OverlordSpot>),
    starts: Seq<(int, int)>,
    x: int,
    y: int,
) -> Seq<(int, int)> {
    if !st.1.contains(key_of(x, y) as usize) && st.0[x][y] && fill_result(
        hs,
        hs[x][y] as int,
        Set::empty(),
        (x, y),
    ) {
        starts.push((x, y))
    } else {
        starts
    }
}

/// The cells at which the scan of column `x` starts spots, after `starts`.
pub open spec fn starts_column(
    hs: Seq<Seq<usize>>,
    st: (Seq<Seq<bool>>, Set<usize>, Seq<OverlordSpot>),
    starts: Seq<(int, int)>,
    x: int,
    y_start: int,
    y: int,
) -> Seq<(int, int)>
    decreases y - y_start,
{
    if y <= y_start {
        starts
    } else {
        spot_start_step(
            hs,
            scan_column(hs, st, x, y_start, y - 1),
            starts_column(hs, st, starts, x, y_start, y - 1),
            x,
            y - 1,
        )
    }
}

/// The cells at which the scan of columns `x_start..x` starts spots, after `starts`.
pub open spec fn starts_columns(
    hs: Seq<Seq<usize>>,
    st: (Seq<Seq<bool>>, Set<usize>, Seq<OverlordSpot>),
    starts: Seq<(int, int)>,
    x_start: int,
    y_start: int,
    y_end: int,
    x: int,
) -> Seq<(int, int)>
    decreases x - x_start,
{
    if x <= x_start {
        starts
    } else {
        starts_column(
            hs,
            scan_columns(hs, st, x_start, y_start, y_end, x - 1),
            starts_columns(hs, st, starts, x_start, y_start, y_end, x - 1),
            x - 1,
            y_start,
            y_end,
        )
    }
}

/// `q` lies on the plateau of `p`: a fill from `p` reaches it, and it has `p`'s height.
pub open spec fn on_plateau(hs: Seq<Seq<usize>>, p: (int, int), q: (int, int)) -> bool {
    &&& fill_reaches(hs, hs[p.0][p.1] as int, Set::empty(), p, q)
    &&& hs[q.0][q.1] == hs[p.0][p.1]
}

/// The spots found so far come from the cells `starts`: each spot is the spot of its
/// start cell's plateau, every cell around that plateau lies low enough, the plateau
/// is flagged and handled, and no start cell lies on a cell that an earlier spot's
/// fill visited.
pub open spec fn spots_explained(
    hs: Seq<Seq<usize>>,
    flags: Seq<Seq<bool>>,
    handled: Set<usize>,
    spots: Seq<OverlordSpot>,
    starts: Seq<(int, int)>,
) -> bool {
    &&& starts.len() == spots.len()
    &&& forall|i: int|
        #![trigger starts[i]]
        0 <= i < starts.len() ==> {
            &&& in_grid(hs, starts[i].0, starts[i].1)
            &&& spots[i] == spot_of(plateau_keys(hs, starts[i].0, starts[i].1))
            &&& fill_result(hs, hs[starts[i].0][starts[i].1] as int, Set::empty(), starts[i])
            &&& plateau_keys(hs, starts[i].0, starts[i].1).subset_of(handled)
        }
    &&& forall|i: int, x: int, y: int|
        #![trigger starts[i], flags[x][y]]
        0 <= i < starts.len() && in_grid(hs, x, y) && on_plateau(hs, starts[i], (x, y)) ==> flags[x][y]
    &&& forall|i: int, j: int|
        #![trigger starts[i], starts[j]]
        0 <= i < j < starts.len() ==> !fill_reaches(
            hs,
            hs[starts[i].0][starts[i].1] as int,
            Set::empty(),
            starts[i],
            starts[j],
        )
}

/// The flags have the grid's dimensions.
pub open spec fn flags_fit(hs: Seq<Seq<usize>>, flags: Seq<Seq<bool>>) -> bool {
    &&& flags.len() == hs.len()
    &&& forall|i: int| 0 <= i < flags.len() ==> #[trigger] flags[i].len() == height_of(hs)
}

/// A cell on the plateau of two cells puts each on the plateau of the other.
proof fn lemma_plateau_meet(hs: Seq<Seq<usize>>, a: (int, int), p: (int, int), q: (int, int))
    requires
        in_grid(hs, a.0, a.1),
        in_grid(hs, p.0, p.1),
        on_plateau(hs, a, q),
        on_plateau(hs, p, q),
    ensures
        fill_reaches(hs, hs[a.0][a.1] as int, Set::empty(), a, p),
{
    let t = hs[a.0][a.1] as int;
    let e = Set::<usize>::empty();
    let aq = choose|path: Seq<(int, int)>|
        #[trigger] is_fill_path(hs, t, e, path) && path[0] == a && path.last() == q;
    let pq = choose|path: Seq<(int, int)>|
        #[trigger] is_fill_path(hs, t, e, path) && path[0] == p && path.last() == q;
    assert(pq[0] == p);
    lemma_reverse(hs, t, pq);
    lemma_join(hs, t, aq, pq.reverse());
}

proof fn lemma_step_explained(
    hs: Seq<Seq<usize>>,
    st: (Seq<Seq<bool>>, Set<usize>, Seq<OverlordSpot>),
    starts: Seq<(int, int)>,
    x: int,
    y: int,
)
    requires
        hs.len() > 0,
        is_rect(hs),
        keyable(hs),
        in_grid(hs, x, y),
        flags_fit(hs, st.0),
        spots_explained(hs, st.0, st.1, st.2, starts),
    ensures
        flags_fit(hs, scan_step(hs, st, x, y).0),
        spots_explained(
            hs,
            scan_step(hs, st, x, y).0,
            scan_step(hs, st, x, y).1,
            scan_step(hs, st, x, y).2,
            spot_start_step(hs, st, starts, x, y),
        ),
{
    let (flags, handled, spots) = st;
    let p = (x, y);
    let t = hs[x][y] as int;
    let out = scan_step(hs, st, x, y);
    let starts2 = spot_start_step(hs, st, starts, x, y);
    lemma_key_roundtrip(hs, x, y);
    if !handled.contains(key_of(x, y) as usize) && flags[x][y] {
        let ok = fill_result(hs, t, Set::empty(), p);
        let f2 = flags_filled(hs, flags, x, y, ok);
        assert(out.0 == f2);
        assert(flags_fit(hs, f2));
        // the plateaus of earlier spots do not meet the plateau of p
        assert forall|i: int, a: int, b: int|
            #![trigger starts[i], f2[a][b]]
            0 <= i < starts.len() && in_grid(hs, a, b) && on_plateau(hs, starts[i], (a, b))
                implies f2[a][b] == flags[a][b] || f2[a][b] by {
            if on_plateau(hs, p, (a, b)) && !ok {
                lemma_plateau_meet(hs, starts[i], p, (a, b));
                lemma_key_roundtrip(hs, x, y);
                assert(plateau_keys(hs, starts[i].0, starts[i].1).contains(key_of(x, y) as usize));
            }
        }
        if ok {
            assert(starts2 == starts.push(p));
            let ks = plateau_keys(hs, x, y);
            assert(out.1 == handled.union(ks));
            assert(out.2 == spots.push(spot_of(ks)));
            lemma_reach_self(hs, t, Set::empty(), p);
            assert forall|i: int| #![trigger starts2[i]] 0 <= i < starts2.len() implies {
                &&& in_grid(hs, starts2[i].0, starts2[i].1)
                &&& out.2[i] == spot_of(plateau_keys(hs, starts2[i].0, starts2[i].1))
                &&& fill_result(hs, hs[starts2[i].0][starts2[i].1] as int, Set::empty(), starts2[i])
                &&& plateau_keys(hs, starts2[i].0, starts2[i].1).subset_of(out.1)
            } by {
                if i < starts.len() {
                    assert(starts2[i] == starts[i]);
                    assert(out.2[i] == spots[i]);
                }
            }
            assert forall|i: int, a: int, b: int|
                #![trigger starts2[i], f2[a][b]]
                0 <= i < starts2.len() && in_grid(hs, a, b) && on_plateau(hs, starts2[i], (a, b))
                    implies f2[a][b] by {
                if i < starts.len() {
                    assert(starts2[i] == starts[i]);
                    assert(flags[a][b]);
                } else {
                    assert(starts2[i] == p);
                }
            }
            assert forall|i: int, j: int|
                #![trigger starts2[i], starts2[j]]
                0 <= i < j < starts2.len() implies !fill_reaches(
                    hs,
                    hs[starts2[i].0][starts2[i].1] as int,
                    Set::empty(),
                    starts2[i],
                    starts2[j],
                ) by {
                assert(starts2[i] == starts[i]);
                if j == starts.len() {
                    assert(starts2[j] == p);
                    if fill_reaches(hs, hs[starts[i].0][starts[i].1] as int, Set::empty(), starts[i], p) {
                        assert(plateau_keys(hs, starts[i].0, starts[i].1).contains(key_of(x, y) as usize));
                    }
                } else {
                    assert(starts2[j] == starts[j]);
                }
            }
        } else {
            assert(starts2 == starts);
            assert forall|i: int, a: int, b: int|
                #![trigger starts2[i], f2[a][b]]
                0 <= i < starts2.len() && in_grid(hs, a, b) && on_plateau(hs, starts2[i], (a, b))
                    implies f2[a][b] by {
                assert(flags[a][b]);
                assert(f2[a][b] == flags[a][b] || f2[a][b]);
            }
        }
    } else {
        assert(starts2 == starts);
    }
}

proof fn lemma_column_explained(
    hs: Seq<Seq<usize>>,
    st: (Seq<Seq<bool>>, Set<usize>, Seq<OverlordSpot>),
    starts: Seq<(int, int)>,
    x: int,
    y_start: int,
    y: int,
)
    requires
        hs.len() > 0,
        is_rect(hs),
        keyable(hs),
        y_start < y ==> 0 <= x < width_of(hs) && 0 <= y_start && y <= height_of(hs),
        flags_fit(hs, st.0),
        spots_explained(hs, st.0, st.1, st.2, starts),
    ensures
        flags_fit(hs, scan_column(hs, st, x, y_start, y).0),
        spots_explained(
            hs,
            scan_column(hs, st, x, y_start, y).0,
            scan_column(hs, st, x, y_start, y).1,
            scan_column(hs, st, x, y_start, y).2,
            starts_column(hs, st, starts, x, y_start, y),
        ),
    decreases y - y_start,
{
    if y > y_start {
        lemma_column_explained(hs, st, starts, x, y_start, y - 1);
        lemma_step_explained(
            hs,
            scan_column(hs, st, x, y_start, y - 1),
            starts_column(hs, st, starts, x, y_start, y - 1),
            x,
            y - 1,
        );
    }
}

proof fn lemma_columns_explained(
    hs: Seq<Seq<usize>>,
    st: (Seq<Seq<bool>>, Set<usize>, Seq<OverlordSpot>),
    starts: Seq<(int, int)>,
    x_start: int,
    y_start: int,
    y_end: int,
    x: int,
)
    requires
        hs.len() > 0,
        is_rect(hs),
        keyable(hs),
        x_start < x && y_start < y_end ==> 0 <= x_start && x <= width_of(hs) && 0 <= y_start
            && y_end <= height_of(hs),
        flags_fit(hs, st.0),
        spots_explained(hs, st.0, st.1, st.2, starts),
    ensures
        flags_fit(hs, scan_columns(hs, st, x_start, y_start, y_end, x).0),
        spots_explained(
            hs,
            scan_columns(hs, st, x_start, y_start, y_end, x).0,
            scan_columns(hs, st, x_start, y_start, y_end, x).1,
            scan_columns(hs, st, x_start, y_start, y_end, x).2,
            starts_columns(hs, st, starts, x_start, y_start, y_end, x),
        ),
    decreases x - x_start,
{
    if x > x_start {
        lemma_columns_explained(hs, st, starts, x_start, y_start, y_end, x - 1);
        lemma_column_explained(
            hs,
            scan_columns(hs, st, x_start, y_start, y_end, x - 1),
            starts_columns(hs, st, starts, x_start, y_start, y_end, x - 1),
            x - 1,
            y_start,
            y_end,
        );
    }
}

/// Every flagged cell whose key is not handled was flagged in `init`.
pub open spec fn flags_from(
    hs: Seq<Seq<usize>>,
    init: Seq<Seq<bool>>,
    flags: Seq<Seq<bool>>,
    handled: Set<usize>,
) -> bool {
    forall|x: int, y: int|
        #![trigger flags[x][y]]
        in_grid(hs, x, y) && flags[x][y] && !handled.contains(key_of(x, y) as usize) ==> init[x][y]
}

/// Every start cell was flagged in `init`.
pub open spec fn starts_flagged(init: Seq<Seq<bool>>, starts: Seq<(int, int)>) -> bool {
    forall|i: int| #![trigger starts[i]] 0 <= i < starts.len() ==> init[starts[i].0][starts[i].1]
}

proof fn lemma_step_flagged(
    hs: Seq<Seq<usize>>,
    init: Seq<Seq<bool>>,
    st: (Seq<Seq<bool>>, Set<usize>, Seq<OverlordSpot>),
    starts: Seq<(int, int)>,
    x: int,
    y: int,
)
    requires
        hs.len() > 0,
        is_rect(hs),
        keyable(hs),
        in_grid(hs, x, y),
        flags_fit(hs, st.0),
        flags_from(hs, init, st.0, st.1),
        starts_flagged(init, starts),
    ensures
        flags_from(hs, init, scan_step(hs, st, x, y).0, scan_step(hs, st, x, y).1),
        starts_flagged(init, spot_start_step(hs, st, starts, x, y)),
{
    let (flags, handled, spots) = st;
    let p = (x, y);
    let t = hs[x][y] as int;
    let out = scan_step(hs, st, x, y);
    let starts2 = spot_start_step(hs, st, starts, x, y);
    if !handled.contains(key_of(x, y) as usize) && flags[x][y] {
        assert(init[x][y]);
        let ok = fill_result(hs, t, Set::empty(), p);
        let f2 = flags_filled(hs, flags, x, y, ok);
        assert(out.0 == f2);
        assert forall|a: int, b: int|
            #![trigger f2[a][b]]
            in_grid(hs, a, b) && f2[a][b] && !out.1.contains(key_of(a, b) as usize) implies init[a][b] by {
            if fill_reaches(hs, t, Set::empty(), p, (a, b)) && hs[a][b] == hs[x][y] {
                if ok {
                    lemma_key_roundtrip(hs, a, b);
                    assert(plateau_keys(hs, x, y).contains(key_of(a, b) as usize));
                    assert(out.1.contains(key_of(a, b) as usize));
                }
            } else {
                assert(f2[a][b] == flags[a][b]);
                assert(handled.subset_of(out.1));
            }
        }
        if ok {
            assert(starts2 == starts.push(p));
            assert forall|i: int| #![trigger starts2[i]] 0 <= i < starts2.len() implies init[starts2[i].0][starts2[i].1] by {
                if i < starts.len() {
                    assert(starts2[i] == starts[i]);
                }
            }
        } else {
            assert(starts2 == starts);
        }
    } else {
        assert(starts2 == starts);
    }
}

proof fn lemma_column_flagged(
    hs: Seq<Seq<usize>>,
    init: Seq<Seq<bool>>,
    st: (Seq<Seq<bool>>, Set<usize>, Seq<OverlordSpot>),
    starts: Seq<(int, int)>,
    x: int,
    y_start: int,
    y: int,
)
    requires
        hs.len() > 0,
        is_rect(hs),
        keyable(hs),
        y_start < y ==> 0 <= x < width_of(hs) && 0 <= y_start && y <= height_of(hs),
        flags_fit(hs, st.0),
        spots_explained(hs, st.0, st.1, st.2, starts),
        flags_from(hs, init, st.0, st.1),
        starts_flagged(init, starts),
    ensures
        flags_from(hs, init, scan_column(hs, st, x, y_start, y).0, scan_column(hs, st, x, y_start, y).1),
        starts_flagged(init, starts_column(hs, st, starts, x, y_start, y)),
    decreases y - y_start,
{
    if y > y_start {
        lemma_column_flagged(hs, init, st, starts, x, y_start, y - 1);
        lemma_column_explained(hs, st, starts, x, y_start, y - 1);
        lemma_step_flagged(
            hs,
            init,
            scan_column(hs, st, x, y_start, y - 1),
            starts_column(hs, st, starts, x, y_start, y - 1),
            x,
            y - 1,
        );
    }
}

proof fn lemma_columns_flagged(
    hs: Seq<Seq<usize>>,
    init: Seq<Seq<bool>>,
    st: (Seq<Seq<bool>>, Set<usize>, Seq<OverlordSpot>),
    starts: Seq<(int, int)>,
    x_start: int,
    y_start: int,
    y_end: int,
    x: int,
)
    requires
        hs.len() > 0,
        is_rect(hs),
        keyable(hs),
        x_start < x && y_start < y_end ==> 0 <= x_start && x <= width_of(hs) && 0 <= y_start
            && y_end <= height_of(hs),
        flags_fit(hs, st.0),
        spots_explained(hs, st.0, st.1, st.2, starts),
        flags_from(hs, init, st.0, st.1),
        starts_flagged(init, starts),
    ensures
        flags_from(
            hs,
            init,
            scan_columns(hs, st, x_start, y_start, y_end, x).0,
            scan_columns(hs, st, x_start, y_start, y_end, x).1,
        ),
        starts_flagged(init, starts_columns(hs, st, starts, x_start, y_start, y_end, x)),
    decreases x - x_start,
{
    if x > x_start {
        lemma_columns_flagged(hs, init, st, starts, x_start, y_start, y_end, x - 1);
        lemma_columns_explained(hs, st, starts, x_start, y_start, y_end, x - 1);
        lemma_column_flagged(
            hs,
            init,
            scan_columns(hs, st, x_start, y_start, y_end, x - 1),
            starts_columns(hs, st, starts, x_start, y_start, y_end, x - 1),
            x - 1,
            y_start,
            y_end,
        );
    }
}

/// Every start cell lies in the inner area, `x_start <= x < x_end` and
/// `y_start <= y < y_end`, on ground that is neither pathable nor placeable in the
/// input grids.
pub open spec fn starts_unwalkable(
    pathing: Seq<Vec<usize>>,
    placement: Seq<Vec<usize>>,
    x_start: usize,
    y_start: usize,
    x_end: usize,
    y_end: usize,
    starts: Seq<(int, int)>,
) -> bool {
    forall|i: int|
        #![trigger starts[i]]
        0 <= i < starts.len() ==> {
            let s = starts[i];
            &&& x_start <= s.0 < x_end
            &&& y_start <= s.1 < y_end
            &&& pathing[s.0]@[s.1] == 0
            &&& placement[s.0]@[s.1] == 0
        }
}

/// The overlord spots of `m` come from the cells `starts`: each spot is the spot of
/// its start cell's plateau, every cell around that plateau lies at least
/// `DIFFERENCE` lower, every cell of the plateau is flagged, and no start cell is
/// one that the fill of an earlier spot visited; so no plateau gives two spots.
pub open spec fn spots_from_plateaus(m: GameMap, starts: Seq<(int, int)>) -> bool {
    let hs = heights_of(m.points@);
    &&& starts.len() == m.overlord_spots@.len()
    &&& forall|i: int|
        #![trigger starts[i]]
        0 <= i < starts.len() ==> {
            &&& in_grid(hs, starts[i].0, starts[i].1)
            &&& m.overlord_spots@[i] == spot_of(plateau_keys(hs, starts[i].0, starts[i].1))
            &&& fill_result(hs, hs[starts[i].0][starts[i].1] as int, Set::empty(), starts[i])
        }
    &&& forall|i: int, x: int, y: int|
        #![trigger starts[i], m.points@[x]@[y]]
        0 <= i < starts.len() && in_grid(hs, x, y) && on_plateau(hs, starts[i], (x, y))
            ==> m.points@[x]@[y].overlord_spot
    &&& forall|i: int, j: int|
        #![trigger starts[i], starts[j]]
        0 <= i < j < starts.len() ==> !fill_reaches(
            hs,
            hs[starts[i].0][starts[i].1] as int,
            Set::empty(),
            starts[i],
            starts[j],
        )
}

/// Every overlord spot of a map that `GameMap::new` built comes from a plateau of
/// its own, around which every cell lies at least `DIFFERENCE` lower, and that
/// plateau ends up flagged. The plateau of every spot holds a cell of the inner area
/// that is unwalkable in the input grids (`pathing` and `placement` both 0): walkable
/// high ground alone never makes an overlord spot.
pub proof fn lemma_spots_from_distinct_plateaus(
    m: GameMap,
    pathing: Seq<Vec<usize>>,
    placement: Seq<Vec<usize>>,
    height_map: Seq<Vec<usize>>,
    x_start: usize,
    y_start: usize,
    x_end: usize,
    y_end: usize,
)
    requires
        constructed(m, pathing, placement, height_map, x_start, y_start, x_end, y_end),
        crate::survey::survey_ok(pathing, placement, height_map, x_start, y_start, x_end, y_end),
        crate::map::keyable_dims(pathing.len() as int, pathing[0]@.len() as int),
    ensures
        exists|starts: Seq<(int, int)>|
            #[trigger] spots_from_plateaus(m, starts) && starts_unwalkable(
                pathing,
                placement,
                x_start,
                y_start,
                x_end,
                y_end,
                starts,
            ),
{
    let (p1, p2) = choose|p1: Seq<Vec<MapPoint>>, p2: Seq<Vec<MapPoint>>|
        #[trigger] built_from(
            m,
            pathing,
            placement,
            height_map,
            x_start,
            y_start,
            x_end,
            y_end,
            p1,
            p2,
        );
    let hs = heights_of(p2);
    let w = pathing.len() as int;
    let h = pathing[0]@.len() as int;
    assert(p1.len() == w && p1[0]@.len() == h);
    assert(p2.len() == w && p2[0]@.len() == h);
    assert forall|i: int| 0 <= i < hs.len() implies #[trigger] hs[i].len() == height_of(hs) by {
        assert(p2[i]@.len() == h);
    }
    // the map keeps the surveyed heights
    assert forall|i: int| 0 <= i < w implies #[trigger] heights_of(m.points@)[i] =~= hs[i] by {
        assert(p2[i]@.len() == h);
        assert(m.points@[i]@.len() == h);
        assert forall|j: int| 0 <= j < h implies heights_of(m.points@)[i][j] == hs[i][j] by {
            assert(refined_cell(
                p2,
                m.points@,
                m.ground_pathing.map@,
                m.reaper_pathing.map@,
                x_start,
                y_start,
                x_end,
                y_end,
                i,
                j,
            ));
        }
    }
    assert(heights_of(m.points@) =~= hs);
    let init = (flags_of(p2), Set::<usize>::empty(), Seq::<OverlordSpot>::empty());
    assert(flags_fit(hs, init.0)) by {
        assert forall|i: int| 0 <= i < w implies #[trigger] init.0[i].len() == height_of(hs) by {
            assert(p2[i]@.len() == h);
        }
    }
    lemma_columns_explained(
        hs,
        init,
        Seq::empty(),
        x_start as int,
        y_start as int,
        y_end as int,
        x_end as int,
    );
    let scan = scan_columns(hs, init, x_start as int, y_start as int, y_end as int, x_end as int);
    let starts = starts_columns(
        hs,
        init,
        Seq::empty(),
        x_start as int,
        y_start as int,
        y_end as int,
        x_end as int,
    );
    assert(flags_of(m.points@) =~~= scan.0);
    assert forall|i: int, x: int, y: int|
        #![trigger starts[i], m.points@[x]@[y]]
        0 <= i < starts.len() && in_grid(hs, x, y) && on_plateau(hs, starts[i], (x, y))
            implies m.points@[x]@[y].overlord_spot by {
        assert(scan.0[x][y]);
        assert(m.points@[x]@.len() == h);
        assert(flags_of(m.points@)[x][y] == m.points@[x]@[y].overlord_spot);
    }
    assert(spots_from_plateaus(m, starts));
    assert(flags_from(hs, init.0, init.0, init.1));
    assert(starts_flagged(init.0, Seq::<(int, int)>::empty()));
    lemma_columns_flagged(
        hs,
        init.0,
        init,
        Seq::empty(),
        x_start as int,
        y_start as int,
        y_end as int,
        x_end as int,
    );
    assert forall|i: int| #![trigger starts[i]] 0 <= i < starts.len() implies {
        let s = starts[i];
        &&& x_start <= s.0 < x_end
        &&& y_start <= s.1 < y_end
        &&& pathing[s.0]@[s.1] == 0
        &&& placement[s.0]@[s.1] == 0
    } by {
        let s = starts[i];
        assert(init.0[s.0][s.1]);
        assert(in_grid(hs, s.0, s.1));
        assert(p2[s.0]@.len() == h);
        assert(p2[s.0]@[s.1] == marked_point(p1, x_start, y_start, x_end, y_end, s.0, s.1));
        assert(p1[s.0]@[s.1] == crate::survey::first_point(
            pathing,
            placement,
            height_map,
            x_start,
            y_start,
            x_end,
            y_end,
            s.0,
            s.1,
        ));
    }
    assert(starts_unwalkable(pathing, placement, x_start, y_start, x_end, y_end, starts));
}

/// One of the eight cells around `(x, y)` is walkable in the input grids.
pub open spec fn walkable_around(pathing: Seq<Vec<usize>>, placement: Seq<Vec<usize>>, x: int, y: int) -> bool {
    exists|dx: int, dy: int|
        -1 <= dx <= 1 && -1 <= dy <= 1 && !(dx == 0 && dy == 0) && #[trigger] crate::survey::walkable_at(
            pathing,
            placement,
            x + dx,
            y + dy,
        )
}

/// A border cell of the inputs: an unwalkable cell of the inner area with a walkable
/// cell around it.
pub open spec fn input_border(
    pathing: Seq<Vec<usize>>,
    placement: Seq<Vec<usize>>,
    x_start: usize,
    y_start: usize,
    x_end: usize,
    y_end: usize,
    x: int,
    y: int,
) -> bool {
    &&& inner_at(x_start, y_start, x_end, y_end, x, y)
    &&& !crate::survey::walkable_at(pathing, placement, x, y)
    &&& walkable_around(pathing, placement, x, y)
}

/// On a map that `GameMap::new` built, the borders that `get_borders` lists are,
/// column by column, exactly the unwalkable cells of the inner area that have a
/// walkable cell among their eight neighbours.
pub proof fn lemma_borders_of_built_map(
    m: GameMap,
    pathing: Seq<Vec<usize>>,
    placement: Seq<Vec<usize>>,
    height_map: Seq<Vec<usize>>,
    x_start: usize,
    y_start: usize,
    x_end: usize,
    y_end: usize,
    borders: Seq<(usize, usize)>,
)
    requires
        constructed(m, pathing, placement, height_map, x_start, y_start, x_end, y_end),
        area_ok(m.width(), m.height(), x_start, y_start, x_end, y_end),
        m.border_list(borders),
    ensures
        forall|i: int|
            0 <= i < borders.len() ==> #[trigger] input_border(
                pathing,
                placement,
                x_start,
                y_start,
                x_end,
                y_end,
                borders[i].0 as int,
                borders[i].1 as int,
            ),
        forall|x: usize, y: usize|
            #[trigger] input_border(pathing, placement, x_start, y_start, x_end, y_end, x as int, y as int)
                ==> borders.contains((x, y)),
        forall|i: int, j: int|
            0 <= i < j < borders.len() ==> crate::map::cell_before(#[trigger] borders[i], #[trigger] borders[j]),
{
    let (p1, p2) = choose|p1: Seq<Vec<MapPoint>>, p2: Seq<Vec<MapPoint>>|
        #[trigger] built_from(
            m,
            pathing,
            placement,
            height_map,
            x_start,
            y_start,
            x_end,
            y_end,
            p1,
            p2,
        );
    let w = m.width();
    let h = m.height();
    assert forall|x: int, y: int| 0 <= x < w && 0 <= y < h implies #[trigger] m.points@[x]@[y].is_border
        == input_border(pathing, placement, x_start, y_start, x_end, y_end, x, y) by {
        let fp = |a: int, b: int|
            crate::survey::first_point(pathing, placement, height_map, x_start, y_start, x_end, y_end, a, b);
        assert(p1[x]@[y] == fp(x, y));
        assert(p2[x]@[y] == marked_point(p1, x_start, y_start, x_end, y_end, x, y));
        assert(refined_cell(
            p2,
            m.points@,
            m.ground_pathing.map@,
            m.reaper_pathing.map@,
            x_start,
            y_start,
            x_end,
            y_end,
            x,
            y,
        ));
        if inner_at(x_start, y_start, x_end, y_end, x, y) {
            assert(p1[x + 1]@[y + 1] == fp(x + 1, y + 1));
            assert(p1[x - 1]@[y + 1] == fp(x - 1, y + 1));
            assert(p1[x + 1]@[y] == fp(x + 1, y));
            assert(p1[x - 1]@[y] == fp(x - 1, y));
            assert(p1[x + 1]@[y - 1] == fp(x + 1, y - 1));
            assert(p1[x - 1]@[y - 1] == fp(x - 1, y - 1));
            assert(p1[x]@[y + 1] == fp(x, y + 1));
            assert(p1[x]@[y - 1] == fp(x, y - 1));
            if walkable_around(pathing, placement, x, y) {
                let (dx, dy) = choose|dx: int, dy: int|
                    -1 <= dx <= 1 && -1 <= dy <= 1 && !(dx == 0 && dy == 0)
                        && #[trigger] crate::survey::walkable_at(pathing, placement, x + dx, y + dy);
                assert(crate::survey::next_to_walkable(p1, x, y));
            }
            if crate::survey::next_to_walkable(p1, x, y) {
                if p1[x + 1]@[y + 1].walkable {
                    assert(crate::survey::walkable_at(pathing, placement, x + 1, y + 1));
                } else if p1[x - 1]@[y + 1].walkable {
                    assert(crate::survey::walkable_at(pathing, placement, x + (-1), y + 1));
                } else if p1[x + 1]@[y].walkable {
                    assert(crate::survey::walkable_at(pathing, placement, x + 1, y + 0));
                } else if p1[x - 1]@[y].walkable {
                    assert(crate::survey::walkable_at(pathing, placement, x + (-1), y + 0));
                } else if p1[x + 1]@[y - 1].walkable {
                    assert(crate::survey::walkable_at(pathing, placement, x + 1, y + (-1)));
                } else if p1[x - 1]@[y - 1].walkable {
                    assert(crate::survey::walkable_at(pathing, placement, x + (-1), y + (-1)));
                } else if p1[x]@[y + 1].walkable {
                    assert(crate::survey::walkable_at(pathing, placement, x + 0, y + 1));
                } else {
                    assert(crate::survey::walkable_at(pathing, placement, x + 0, y + (-1)));
                }
            }
        }
    }
    assert forall|x: usize, y: usize|
        #[trigger] input_border(pathing, placement, x_start, y_start, x_end, y_end, x as int, y as int)
            implies borders.contains((x, y)) by {
        assert(x < w && y < h);
        assert(m.points@[x as int]@[y as int].is_border);
    }
    assert forall|i: int| 0 <= i < borders.len() implies #[trigger] input_border(
        pathing,
        placement,
        x_start,
        y_start,
        x_end,
        y_end,
        borders[i].0 as int,
        borders[i].1 as int,
    ) by {
        let c = borders[i];
        assert(m.points@[c.0 as int]@[c.1 as int].is_border);
    }
}

/// On a map that `GameMap::new` built, air units may go exactly over the cells of
/// the playable area, bounds included: `x_start <= x <= x_end` and
/// `y_start <= y <= y_end`; the air grid holds 1 there and 0 elsewhere, and the
/// points are marked pathable exactly there.
pub proof fn lemma_air_covers_playable_area(
    m: GameMap,
    pathing: Seq<Vec<usize>>,
    placement: Seq<Vec<usize>>,
    height_map: Seq<Vec<usize>>,
    x_start: usize,
    y_start: usize,
    x_end: usize,
    y_end: usize,
)
    requires
        constructed(m, pathing, placement, height_map, x_start, y_start, x_end, y_end),
    ensures
        forall|x: int, y: int|
            0 <= x < m.width() && 0 <= y < m.height() ==> {
                let inside = x_start <= x && x <= x_end && y_start <= y && y <= y_end;
                &&& #[trigger] m.air_pathing.map@[x]@[y] == (if inside { 1usize } else { 0usize })
                &&& m.points@[x]@[y].pathable == inside
            },
{
    lemma_grids_match_points(m, pathing, placement, height_map, x_start, y_start, x_end, y_end);
    assert forall|x: int, y: int| 0 <= x < m.width() && 0 <= y < m.height() implies {
        let inside = x_start <= x && x <= x_end && y_start <= y && y <= y_end;
        &&& #[trigger] m.air_pathing.map@[x]@[y] == (if inside { 1usize } else { 0usize })
        &&& m.points@[x]@[y].pathable == inside
    } by {
        assert(grids_match_point(m, x, y));
    }
}

/// On a map that `GameMap::new` built, a cell is walkable, and open to ground
/// units, exactly when its `pathing` value or its `placement` value is positive:
/// buildable ground that is also pathable stays walkable.
pub proof fn lemma_ground_from_inputs(
    m: GameMap,
    pathing: Seq<Vec<usize>>,
    placement: Seq<Vec<usize>>,
    height_map: Seq<Vec<usize>>,
    x_start: usize,
    y_start: usize,
    x_end: usize,
    y_end: usize,
)
    requires
        constructed(m, pathing, placement, height_map, x_start, y_start, x_end, y_end),
    ensures
        forall|x: int, y: int|
            0 <= x < m.width() && 0 <= y < m.height() && (pathing[x]@[y] > 0 || placement[x]@[y] > 0)
                ==> #[trigger] m.ground_pathing.map@[x]@[y] == 1 && m.points@[x]@[y].walkable,
        forall|x: int, y: int|
            0 <= x < m.width() && 0 <= y < m.height() && pathing[x]@[y] == 0 && placement[x]@[y] == 0
                ==> #[trigger] m.ground_pathing.map@[x]@[y] == 0 && !m.points@[x]@[y].walkable,
{
    lemma_grids_match_points(m, pathing, placement, height_map, x_start, y_start, x_end, y_end);
    assert forall|x: int, y: int|
        0 <= x < m.width() && 0 <= y < m.height() && (pathing[x]@[y] > 0 || placement[x]@[y] > 0)
            implies #[trigger] m.ground_pathing.map@[x]@[y] == 1 && m.points@[x]@[y].walkable by {
        assert(grids_match_point(m, x, y));
    }
    assert forall|x: int, y: int|
        0 <= x < m.width() && 0 <= y < m.height() && pathing[x]@[y] == 0 && placement[x]@[y] == 0
            implies #[trigger] m.ground_pathing.map@[x]@[y] == 0 && !m.points@[x]@[y].walkable by {
        assert(grids_match_point(m, x, y));
    }
}

/// The second pass changes nothing but the overlord and border flags, and only on
/// unwalkable cells of the inner area `x_start <= x < x_end`, `y_start <= y < y_end`:
/// a walkable cell, or a cell outside that area, keeps every field; no flag is
/// cleared.
pub proof fn lemma_second_pass_touches_unwalkable_inner_cells(
    p1: Seq<Vec<MapPoint>>,
    p2: Seq<Vec<MapPoint>>,
    x_start: usize,
    y_start: usize,
    x_end: usize,
    y_end: usize,
)
    requires
        second_pass_grid(p1, p2, x_start, y_start, x_end, y_end),
    ensures
        forall|x: int, y: int|
            0 <= x < p1.len() && 0 <= y < p1[0]@.len() ==> {
                let a = p1[x]@[y];
                let b = #[trigger] p2[x]@[y];
                &&& a.walkable || !(x_start <= x < x_end && y_start <= y < y_end) ==> b == a
                &&& b == MapPoint { overlord_spot: b.overlord_spot, is_border: b.is_border, ..a }
                &&& a.overlord_spot ==> b.overlord_spot
                &&& a.is_border ==> b.is_border
            },
{
    assert forall|x: int, y: int| 0 <= x < p1.len() && 0 <= y < p1[0]@.len() implies {
        let a = p1[x]@[y];
        let b = #[trigger] p2[x]@[y];
        &&& a.walkable || !(x_start <= x < x_end && y_start <= y < y_end) ==> b == a
        &&& b == MapPoint { overlord_spot: b.overlord_spot, is_border: b.is_border, ..a }
        &&& a.overlord_spot ==> b.overlord_spot
        &&& a.is_border ==> b.is_border
    } by {
        assert(p2[x]@[y] == marked_point(p1, x_start, y_start, x_end, y_end, x, y));
    }
}

} // verus!
