use vstd::prelude::*;
use std::collections::HashSet;
use crate::map_point::MapPoint;
use crate::grid::{
    heights_of, width_of, height_of, is_rect, in_grid, key_of, key_x, key_y, seen, keyable,
    adjacent, heights_bounded, lemma_key_roundtrip, lemma_key_decode, Y_MULT, DIFFERENCE,
};

verus! {

broadcast use vstd::std_specs::hash::group_hash_axioms;

/// A grid on which an overlord flood fill can run.
pub open spec fn fill_ready(pts: Seq<Vec<MapPoint>>) -> bool {
    &&& pts.len() > 0
    &&& is_rect(heights_of(pts))
    &&& keyable(heights_of(pts))
    &&& heights_bounded(heights_of(pts))
}

/// Step `i` of a fill path goes to a side neighbour and leaves a cell of the target height.
pub open spec fn link(hs: Seq<Seq<usize>>, t: int, path: Seq<(int, int)>, i: int) -> bool {
    &&& adjacent(hs, path[i], path[i + 1])
    &&& hs[path[i].0][path[i].1] == t
}

/// A walk of the fill: it avoids the cells recorded in `s`, and every cell but the
/// last has the target height `t`.
pub open spec fn is_fill_path(
    hs: Seq<Seq<usize>>,
    t: int,
    s: Set<usize>,
    path: Seq<(int, int)>,
) -> bool {
    &&& path.len() >= 1
    &&& forall|i: int|
        #![trigger path[i]]
        0 <= i < path.len() ==> in_grid(hs, path[i].0, path[i].1) && !seen(s, path[i].0, path[i].1)
    &&& forall|i: int| 0 <= i < path.len() - 1 ==> #[trigger] link(hs, t, path, i)
}

/// A fill that starts at `from` with the cells of `s` already recorded reaches `to`.
pub open spec fn fill_reaches(
    hs: Seq<Seq<usize>>,
    t: int,
    s: Set<usize>,
    from: (int, int),
    to: (int, int),
) -> bool {
    exists|path: Seq<(int, int)>|
        #[trigger] is_fill_path(hs, t, s, path) && path[0] == from && path.last() == to
}

/// The set after the fill: what it held, and every cell the fill reaches.
pub open spec fn fill_set_post(
    hs: Seq<Seq<usize>>,
    t: int,
    s0: Set<usize>,
    p: (int, int),
    s1: Set<usize>,
) -> bool {
    forall|k: usize|
        #![trigger s1.contains(k)]
        #![trigger s0.contains(k)]
        s1.contains(k) <==> (s0.contains(k) || (in_grid(hs, key_x(k), key_y(k)) && fill_reaches(
            hs,
            t,
            s0,
            p,
            (key_x(k), key_y(k)),
        )))
}

pub open spec fn with_spot(mp: MapPoint, b: bool) -> MapPoint {
    MapPoint { overlord_spot: b, ..mp }
}

pub open spec fn same_shape(a: Seq<Vec<MapPoint>>, b: Seq<Vec<MapPoint>>) -> bool {
    &&& a.len() == b.len()
    &&& forall|i: int| 0 <= i < a.len() ==> #[trigger] b[i]@.len() == a[i]@.len()
}

/// The grid after the fill: every reached cell of the target height gets the
/// replacement as its overlord flag; nothing else changes.
pub open spec fn fill_grid_post(
    pts0: Seq<Vec<MapPoint>>,
    t: int,
    s0: Set<usize>,
    p: (int, int),
    r: bool,
    pts1: Seq<Vec<MapPoint>>,
) -> bool {
    let hs = heights_of(pts0);
    &&& same_shape(pts0, pts1)
    &&& forall|x: int, y: int|
        in_grid(hs, x, y) ==> #[trigger] pts1[x]@[y] == (if fill_reaches(hs, t, s0, p, (x, y))
            && hs[x][y] == t {
            with_spot(pts0[x]@[y], r)
        } else {
            pts0[x]@[y]
        })
}

/// Every reached cell of another height lies at least `DIFFERENCE` below the target.
pub open spec fn fill_result(hs: Seq<Seq<usize>>, t: int, s0: Set<usize>, p: (int, int)) -> bool {
    forall|x: int, y: int|
        #![trigger fill_reaches(hs, t, s0, p, (x, y))]
        in_grid(hs, x, y) && fill_reaches(hs, t, s0, p, (x, y)) && hs[x][y] != t ==> hs[x][y]
            + DIFFERENCE <= t
}

/// The four side neighbours of `(x, y)` that lie on the grid are recorded in `s`.
pub open spec fn neighbors_seen(hs: Seq<Seq<usize>>, s: Set<usize>, x: int, y: int) -> bool {
    &&& (x > 0 ==> seen(s, x - 1, y))
    &&& (y > 0 ==> seen(s, x, y - 1))
    &&& (x + 1 < width_of(hs) ==> seen(s, x + 1, y))
    &&& (y + 1 < height_of(hs) ==> seen(s, x, y + 1))
}

/// Newly recorded cells of another height all lie low enough.
pub open spec fn new_cells_low(hs: Seq<Seq<usize>>, s0: Set<usize>, s: Set<usize>, t: int) -> bool {
    forall|x: int, y: int|
        #![trigger seen(s, x, y)]
        in_grid(hs, x, y) && seen(s, x, y) && !seen(s0, x, y) && hs[x][y] != t ==> hs[x][y]
            + DIFFERENCE <= t
}

/// Newly recorded cells of the target height, other than `p`, have their neighbours recorded.
pub open spec fn closed_except(
    hs: Seq<Seq<usize>>,
    s0: Set<usize>,
    s: Set<usize>,
    t: int,
    p: (int, int),
) -> bool {
    forall|x: int, y: int|
        #![trigger seen(s, x, y)]
        in_grid(hs, x, y) && seen(s, x, y) && !seen(s0, x, y) && hs[x][y] == t && (x, y) != p
            ==> neighbors_seen(hs, s, x, y)
}

/// The state of a fill from `p` part way through its neighbours.
pub open spec fn fill_progress(
    pts0: Seq<Vec<MapPoint>>,
    s0: Set<usize>,
    p: (int, int),
    t: int,
    r: bool,
    pts: Seq<Vec<MapPoint>>,
    s: Set<usize>,
    res: bool,
) -> bool {
    let hs = heights_of(pts0);
    &&& s0.subset_of(s)
    &&& seen(s, p.0, p.1)
    &&& forall|k: usize|
        #[trigger] s.contains(k) && !s0.contains(k) ==> in_grid(hs, key_x(k), key_y(k))
            && fill_reaches(hs, t, s0, p, (key_x(k), key_y(k)))
    &&& closed_except(hs, s0, s, t, p)
    &&& same_shape(pts0, pts)
    &&& forall|x: int, y: int|
        in_grid(hs, x, y) ==> #[trigger] pts[x]@[y] == (if seen(s, x, y) && !seen(s0, x, y)
            && hs[x][y] == t {
            with_spot(pts0[x]@[y], r)
        } else {
            pts0[x]@[y]
        })
    &&& res == new_cells_low(hs, s0, s, t)
}

/// Every key that names a cell of a `w` by `h` grid.
pub open spec fn grid_keys(w: int, h: int) -> Set<usize> {
    Set::new(|k: usize| key_x(k) < w && key_y(k) < h)
}

/// How many cells of the grid are not yet recorded.
pub open spec fn unseen_cells(pts: Seq<Vec<MapPoint>>, s: Set<usize>) -> nat {
    grid_keys(width_of(heights_of(pts)), height_of(heights_of(pts))).difference(s).len()
}

pub(crate) proof fn lemma_below_finite(n: nat)
    requires
        n <= usize::MAX + 1,
    ensures
        Set::new(|k: usize| k < n).finite(),
        Set::new(|k: usize| k < n).len() == n,
    decreases n,
{
    if n == 0 {
        assert(Set::new(|k: usize| k < n) =~= Set::<usize>::empty());
    } else {
        lemma_below_finite((n - 1) as nat);
        assert(Set::new(|k: usize| k < n) =~= Set::new(|k: usize| k < (n - 1) as nat).insert(
            (n - 1) as usize,
        ));
    }
}

pub(crate) proof fn lemma_grid_keys_finite(w: int, h: int)
    requires
        0 <= w <= Y_MULT,
        0 <= h,
        h * (Y_MULT as int) <= usize::MAX + 1,
    ensures
        grid_keys(w, h).finite(),
{
    let n = (h * (Y_MULT as int)) as nat;
    lemma_below_finite(n);
    assert forall|k: usize| grid_keys(w, h).contains(k) implies Set::new(|k: usize| k < n).contains(
        k,
    ) by {
        lemma_key_decode(k);
        assert(key_y(k) * (Y_MULT as int) <= (h - 1) * (Y_MULT as int)) by (nonlinear_arith)
            requires
                key_y(k) <= h - 1,
        ;
    }
    vstd::set_lib::lemma_len_subset(grid_keys(w, h), Set::new(|k: usize| k < n));
}

/// The cells of the grid seen through their heights.
pub proof fn lemma_heights_of(pts: Seq<Vec<MapPoint>>, x: int, y: int)
    requires
        0 <= x < pts.len(),
        0 <= y < pts[x]@.len(),
    ensures
        heights_of(pts).len() == pts.len(),
        heights_of(pts)[x].len() == pts[x]@.len(),
        heights_of(pts)[x][y] == pts[x]@[y].height,
{
}

/// A walk can start one step earlier, from a recorded cell of the target height.
proof fn lemma_prepend(
    hs: Seq<Seq<usize>>,
    t: int,
    s0: Set<usize>,
    s: Set<usize>,
    p: (int, int),
    path: Seq<(int, int)>,
)
    requires
        is_fill_path(hs, t, s, path),
        s0.subset_of(s),
        !seen(s0, p.0, p.1),
        adjacent(hs, p, path[0]),
        hs[p.0][p.1] == t,
    ensures
        is_fill_path(hs, t, s0, seq![p] + path),
        (seq![p] + path)[0] == p,
        (seq![p] + path).last() == path.last(),
{
    let q = seq![p] + path;
    assert forall|i: int| 0 <= i < q.len() implies in_grid(hs, q[i].0, q[i].1) && !seen(
        s0,
        q[i].0,
        q[i].1,
    ) by {
        if i > 0 {
            assert(q[i] == path[i - 1]);
        }
    }
    assert forall|i: int| 0 <= i < q.len() - 1 implies #[trigger] link(hs, t, q, i) by {
        if i > 0 {
            assert(link(hs, t, path, i - 1));
            assert(q[i] == path[i - 1]);
            assert(q[i + 1] == path[i]);
        }
    }
}

/// A walk can go one step further, leaving a cell of the target height.
proof fn lemma_extend(
    hs: Seq<Seq<usize>>,
    t: int,
    s: Set<usize>,
    path: Seq<(int, int)>,
    m: (int, int),
)
    requires
        is_fill_path(hs, t, s, path),
        hs[path.last().0][path.last().1] == t,
        adjacent(hs, path.last(), m),
        !seen(s, m.0, m.1),
    ensures
        is_fill_path(hs, t, s, path.push(m)),
        path.push(m)[0] == path[0],
        path.push(m).last() == m,
{
    let q = path.push(m);
    assert forall|i: int| 0 <= i < q.len() implies in_grid(hs, q[i].0, q[i].1) && !seen(
        s,
        q[i].0,
        q[i].1,
    ) by {
        if i < path.len() {
            assert(q[i] == path[i]);
        }
    }
    assert forall|i: int| 0 <= i < q.len() - 1 implies #[trigger] link(hs, t, q, i) by {
        if i < path.len() - 1 {
            assert(link(hs, t, path, i));
        }
    }
}

/// The cell where a walk ends lies on the grid and is not recorded.
proof fn lemma_reach_end(
    hs: Seq<Seq<usize>>,
    t: int,
    s: Set<usize>,
    from: (int, int),
    to: (int, int),
)
    requires
        fill_reaches(hs, t, s, from, to),
    ensures
        in_grid(hs, to.0, to.1),
        !seen(s, to.0, to.1),
        in_grid(hs, from.0, from.1),
        !seen(s, from.0, from.1),
{
    let path = choose|path: Seq<(int, int)>|
        #[trigger] is_fill_path(hs, t, s, path) && path[0] == from && path.last() == to;
    assert(path[path.len() - 1] == to);
    assert(path[0] == from);
}

/// A single unrecorded cell of the grid is reached by the fill that starts there.
pub(crate) proof fn lemma_reach_self(hs: Seq<Seq<usize>>, t: int, s: Set<usize>, p: (int, int))
    requires
        in_grid(hs, p.0, p.1),
        !seen(s, p.0, p.1),
    ensures
        fill_reaches(hs, t, s, p, p),
{
    let path = seq![p];
    assert(path[0] == p);
    assert(is_fill_path(hs, t, s, path));
}

/// A walk whose start is recorded in a set closed under the fill stays in that set.
proof fn lemma_walk(
    hs: Seq<Seq<usize>>,
    t: int,
    s0: Set<usize>,
    s: Set<usize>,
    path: Seq<(int, int)>,
    i: int,
)
    requires
        is_fill_path(hs, t, s0, path),
        seen(s, path[0].0, path[0].1),
        forall|x: int, y: int|
            #![trigger seen(s, x, y)]
            in_grid(hs, x, y) && seen(s, x, y) && !seen(s0, x, y) && hs[x][y] == t
                ==> neighbors_seen(hs, s, x, y),
        0 <= i < path.len(),
    ensures
        seen(s, path[i].0, path[i].1),
    decreases i,
{
    if i > 0 {
        lemma_walk(hs, t, s0, s, path, i - 1);
        assert(link(hs, t, path, i - 1));
        let c = path[i - 1];
        assert(in_grid(hs, c.0, c.1) && !seen(s0, c.0, c.1));
        assert(neighbors_seen(hs, s, c.0, c.1));
    }
}

/// What a fill that has recorded `s1` from `s0` says about single cells.
proof fn lemma_set_post_cell(
    hs: Seq<Seq<usize>>,
    t: int,
    s0: Set<usize>,
    n: (int, int),
    s1: Set<usize>,
    x: int,
    y: int,
)
    requires
        keyable(hs),
        fill_set_post(hs, t, s0, n, s1),
        in_grid(hs, x, y),
    ensures
        seen(s1, x, y) <==> (seen(s0, x, y) || fill_reaches(hs, t, s0, n, (x, y))),
{
    lemma_key_roundtrip(hs, x, y);
    let k = key_of(x, y) as usize;
    assert(s1.contains(k) <==> (s0.contains(k) || (in_grid(hs, key_x(k), key_y(k))
        && fill_reaches(hs, t, s0, n, (key_x(k), key_y(k))))));
}

/// Starting the fill on a recorded cell reaches nothing.
proof fn lemma_start_seen(pts0: Seq<Vec<MapPoint>>, t: int, s0: Set<usize>, p: (int, int))
    requires
        seen(s0, p.0, p.1),
    ensures
        fill_set_post(heights_of(pts0), t, s0, p, s0),
        fill_grid_post(pts0, t, s0, p, true, pts0),
        fill_grid_post(pts0, t, s0, p, false, pts0),
        fill_result(heights_of(pts0), t, s0, p),
{
    let hs = heights_of(pts0);
    assert forall|q: (int, int)| !fill_reaches(hs, t, s0, p, q) by {
        if fill_reaches(hs, t, s0, p, q) {
            lemma_reach_end(hs, t, s0, p, q);
        }
    }
}

/// Starting the fill on a cell of another height reaches that cell alone.
proof fn lemma_start_other_height(
    pts0: Seq<Vec<MapPoint>>,
    t: int,
    s0: Set<usize>,
    p: (int, int),
    r: bool,
)
    requires
        fill_ready(pts0),
        in_grid(heights_of(pts0), p.0, p.1),
        !seen(s0, p.0, p.1),
        heights_of(pts0)[p.0][p.1] != t,
    ensures
        fill_set_post(heights_of(pts0), t, s0, p, s0.insert(key_of(p.0, p.1) as usize)),
        fill_grid_post(pts0, t, s0, p, r, pts0),
        fill_result(heights_of(pts0), t, s0, p) == (heights_of(pts0)[p.0][p.1] + DIFFERENCE <= t),
{
    let hs = heights_of(pts0);
    assert forall|q: (int, int)| #[trigger] fill_reaches(hs, t, s0, p, q) <==> q == p by {
        if fill_reaches(hs, t, s0, p, q) {
            let path = choose|path: Seq<(int, int)>|
                #[trigger] is_fill_path(hs, t, s0, path) && path[0] == p && path.last() == q;
            if path.len() > 1 {
                assert(link(hs, t, path, 0));
            }
        }
        if q == p {
            lemma_reach_self(hs, t, s0, p);
        }
    }
    lemma_key_roundtrip(hs, p.0, p.1);
    let kp = key_of(p.0, p.1) as usize;
    let s1 = s0.insert(kp);
    assert forall|k: usize| s1.contains(k) <==> (s0.contains(k) || (in_grid(hs, key_x(k), key_y(k))
        && fill_reaches(hs, t, s0, p, (key_x(k), key_y(k))))) by {
        lemma_key_decode(k);
    }
    assert(fill_reaches(hs, t, s0, p, p));
}

/// Recording the start cell and setting its flag begins the fill.
proof fn lemma_start_progress(
    pts0: Seq<Vec<MapPoint>>,
    t: int,
    s0: Set<usize>,
    p: (int, int),
    r: bool,
    pts: Seq<Vec<MapPoint>>,
    s: Set<usize>,
)
    requires
        fill_ready(pts0),
        in_grid(heights_of(pts0), p.0, p.1),
        !seen(s0, p.0, p.1),
        heights_of(pts0)[p.0][p.1] == t,
        s == s0.insert(key_of(p.0, p.1) as usize),
        pts.len() == pts0.len(),
        forall|i: int| 0 <= i < pts0.len() && i != p.0 ==> pts[i] == pts0[i],
        pts[p.0]@ == pts0[p.0]@.update(p.1, with_spot(pts0[p.0]@[p.1], r)),
    ensures
        fill_progress(pts0, s0, p, t, r, pts, s, true),
{
    let hs = heights_of(pts0);
    lemma_key_roundtrip(hs, p.0, p.1);
    let kp = key_of(p.0, p.1) as usize;
    assert forall|k: usize| #[trigger] s.contains(k) && !s0.contains(k) implies in_grid(
        hs,
        key_x(k),
        key_y(k),
    ) && fill_reaches(hs, t, s0, p, (key_x(k), key_y(k))) by {
        assert(k == kp);
        lemma_reach_self(hs, t, s0, p);
    }
    assert forall|x: int, y: int| in_grid(hs, x, y) && seen(s, x, y) && !seen(s0, x, y) implies (
    x, y) == p by {
        crate::grid::lemma_key_injective(hs, x, y, p.0, p.1);
    }
    assert forall|i: int| 0 <= i < pts0.len() implies #[trigger] pts[i]@.len() == pts0[i]@.len() by {
        if i != p.0 {
            assert(pts[i] == pts0[i]);
        } else {
            assert(hs[p.0].len() == height_of(hs));
            assert(hs[p.0].len() == pts0[p.0]@.len());
        }
    }
    assert forall|x: int, y: int| in_grid(hs, x, y) implies #[trigger] pts[x]@[y] == (if seen(s, x, y)
        && !seen(s0, x, y) && hs[x][y] == t {
        with_spot(pts0[x]@[y], r)
    } else {
        pts0[x]@[y]
    }) by {
        assert(is_rect(hs));
        assert(hs[x].len() == height_of(hs));
        if (x, y) == p {
        } else if seen(s, x, y) && !seen(s0, x, y) {
        }
    }
}

/// Part way through the fill only overlord flags have changed.
proof fn lemma_progress_heights(
    pts0: Seq<Vec<MapPoint>>,
    s0: Set<usize>,
    p: (int, int),
    t: int,
    r: bool,
    pts: Seq<Vec<MapPoint>>,
    s: Set<usize>,
    res: bool,
)
    requires
        fill_ready(pts0),
        fill_progress(pts0, s0, p, t, r, pts, s, res),
    ensures
        heights_of(pts) == heights_of(pts0),
        fill_ready(pts),
{
    let hs = heights_of(pts0);
    assert forall|i: int| 0 <= i < pts.len() implies #[trigger] heights_of(pts)[i] =~= hs[i] by {
        assert(hs[i].len() == height_of(hs));
        assert forall|j: int| 0 <= j < hs[i].len() implies heights_of(pts)[i][j] == hs[i][j] by {
            assert(in_grid(hs, i, j));
            assert(pts[i]@[j].height == pts0[i]@[j].height);
        }
    }
    assert(heights_of(pts) =~= hs);
}

/// Each call on a neighbour records strictly more cells of the grid.
proof fn lemma_progress_measure(
    pts0: Seq<Vec<MapPoint>>,
    s0: Set<usize>,
    p: (int, int),
    t: int,
    r: bool,
    pts: Seq<Vec<MapPoint>>,
    s: Set<usize>,
    res: bool,
)
    requires
        fill_ready(pts0),
        in_grid(heights_of(pts0), p.0, p.1),
        !seen(s0, p.0, p.1),
        fill_progress(pts0, s0, p, t, r, pts, s, res),
    ensures
        unseen_cells(pts, s) < unseen_cells(pts0, s0),
{
    let hs = heights_of(pts0);
    lemma_progress_heights(pts0, s0, p, t, r, pts, s, res);
    let g = grid_keys(width_of(hs), height_of(hs));
    lemma_grid_keys_finite(width_of(hs), height_of(hs));
    lemma_key_roundtrip(hs, p.0, p.1);
    let kp = key_of(p.0, p.1) as usize;
    assert(g.contains(kp));
    g.lemma_set_insert_diff_decreases(s0, kp);
    vstd::set_lib::lemma_len_subset(g.difference(s0.insert(kp)), g);
    vstd::set_lib::lemma_len_subset(g.difference(s), g.difference(s0.insert(kp)));
}

/// A call on a neighbour of `p` keeps the fill from `p` on track.
proof fn lemma_progress_step(
    pts0: Seq<Vec<MapPoint>>,
    s0: Set<usize>,
    p: (int, int),
    t: int,
    r: bool,
    pts_pre: Seq<Vec<MapPoint>>,
    s_pre: Set<usize>,
    res_pre: bool,
    n: (int, int),
    pts_post: Seq<Vec<MapPoint>>,
    s_post: Set<usize>,
    sub: bool,
)
    requires
        fill_ready(pts0),
        in_grid(heights_of(pts0), p.0, p.1),
        !seen(s0, p.0, p.1),
        heights_of(pts0)[p.0][p.1] == t,
        adjacent(heights_of(pts0), p, n),
        fill_progress(pts0, s0, p, t, r, pts_pre, s_pre, res_pre),
        heights_of(pts_pre) == heights_of(pts0),
        fill_set_post(heights_of(pts0), t, s_pre, n, s_post),
        fill_grid_post(pts_pre, t, s_pre, n, r, pts_post),
        sub == fill_result(heights_of(pts0), t, s_pre, n),
    ensures
        fill_progress(pts0, s0, p, t, r, pts_post, s_post, res_pre && sub),
        seen(s_post, n.0, n.1),
{
    let hs = heights_of(pts0);
    // which cells the call recorded
    assert forall|x: int, y: int| in_grid(hs, x, y) implies (seen(s_post, x, y) <==> (seen(
        s_pre,
        x,
        y,
    ) || fill_reaches(hs, t, s_pre, n, (x, y)))) && (fill_reaches(hs, t, s_pre, n, (x, y))
        ==> !seen(s_pre, x, y)) by {
        lemma_set_post_cell(hs, t, s_pre, n, s_post, x, y);
        if fill_reaches(hs, t, s_pre, n, (x, y)) {
            lemma_reach_end(hs, t, s_pre, n, (x, y));
        }
    }
    // the neighbour itself is recorded
    if !seen(s_pre, n.0, n.1) {
        lemma_reach_self(hs, t, s_pre, n);
    }
    assert(seen(s_post, n.0, n.1));
    // the recorded set only grew
    assert forall|k: usize| s_pre.contains(k) implies s_post.contains(k) by {}
    assert(s0.subset_of(s_post));
    // every newly recorded key is reached from p
    assert forall|k: usize| #[trigger] s_post.contains(k) && !s0.contains(k) implies in_grid(
        hs,
        key_x(k),
        key_y(k),
    ) && fill_reaches(hs, t, s0, p, (key_x(k), key_y(k))) by {
        if !s_pre.contains(k) {
            let q = (key_x(k), key_y(k));
            assert(in_grid(hs, q.0, q.1) && fill_reaches(hs, t, s_pre, n, q));
            let path = choose|path: Seq<(int, int)>|
                #[trigger] is_fill_path(hs, t, s_pre, path) && path[0] == n && path.last() == q;
            lemma_prepend(hs, t, s0, s_pre, p, path);
            assert(is_fill_path(hs, t, s0, seq![p] + path));
        }
    }
    // closure of the new cells
    assert forall|x: int, y: int|
        #![trigger seen(s_post, x, y)]
        in_grid(hs, x, y) && seen(s_post, x, y) && !seen(s0, x, y) && hs[x][y] == t && (x, y) != p
            implies neighbors_seen(hs, s_post, x, y) by {
        if seen(s_pre, x, y) {
            assert(neighbors_seen(hs, s_pre, x, y));
            if x > 0 {
                lemma_key_roundtrip(hs, x - 1, y);
            }
            if y > 0 {
                lemma_key_roundtrip(hs, x, y - 1);
            }
            if x + 1 < width_of(hs) {
                lemma_key_roundtrip(hs, x + 1, y);
            }
            if y + 1 < height_of(hs) {
                lemma_key_roundtrip(hs, x, y + 1);
            }
        } else {
            assert(fill_reaches(hs, t, s_pre, n, (x, y)));
            let path = choose|path: Seq<(int, int)>|
                #[trigger] is_fill_path(hs, t, s_pre, path) && path[0] == n && path.last() == (
                x,
                y,
            );
            assert(path[path.len() - 1] == (x, y));
            let ms = seq![(x - 1, y), (x, y - 1), (x + 1, y), (x, y + 1)];
            assert forall|j: int| 0 <= j < 4 && in_grid(hs, ms[j].0, ms[j].1) implies seen(
                s_post,
                ms[j].0,
                ms[j].1,
            ) by {
                let m = ms[j];
                if !seen(s_pre, m.0, m.1) {
                    lemma_extend(hs, t, s_pre, path, m);
                    assert(is_fill_path(hs, t, s_pre, path.push(m)));
                    assert(fill_reaches(hs, t, s_pre, n, m));
                }
            }
            assert(in_grid(hs, ms[0].0, ms[0].1) ==> seen(s_post, ms[0].0, ms[0].1));
            assert(in_grid(hs, ms[1].0, ms[1].1) ==> seen(s_post, ms[1].0, ms[1].1));
            assert(in_grid(hs, ms[2].0, ms[2].1) ==> seen(s_post, ms[2].0, ms[2].1));
            assert(in_grid(hs, ms[3].0, ms[3].1) ==> seen(s_post, ms[3].0, ms[3].1));
        }
    }
    // shape and flags
    assert forall|i: int| 0 <= i < pts0.len() implies #[trigger] pts_post[i]@.len()
        == pts0[i]@.len() by {
        assert(pts_pre[i]@.len() == pts0[i]@.len());
    }
    assert forall|x: int, y: int| in_grid(hs, x, y) implies #[trigger] pts_post[x]@[y] == (if seen(
        s_post,
        x,
        y,
    ) && !seen(s0, x, y) && hs[x][y] == t {
        with_spot(pts0[x]@[y], r)
    } else {
        pts0[x]@[y]
    }) by {
        assert(pts_pre[x]@[y] == (if seen(s_pre, x, y) && !seen(s0, x, y) && hs[x][y] == t {
            with_spot(pts0[x]@[y], r)
        } else {
            pts0[x]@[y]
        }));
        if fill_reaches(hs, t, s_pre, n, (x, y)) {
            if seen(s0, x, y) {
                assert(s0.contains(key_of(x, y) as usize));
            }
        }
    }
    // the result
    assert(new_cells_low(hs, s0, s_post, t) == (res_pre && sub)) by {
        if new_cells_low(hs, s0, s_post, t) {
            assert forall|x: int, y: int|
                #![trigger seen(s_pre, x, y)]
                in_grid(hs, x, y) && seen(s_pre, x, y) && !seen(s0, x, y) && hs[x][y] != t implies hs[x][y]
                    + DIFFERENCE <= t by {
                assert(seen(s_post, x, y));
            }
            assert forall|x: int, y: int|
                #![trigger fill_reaches(hs, t, s_pre, n, (x, y))]
                in_grid(hs, x, y) && fill_reaches(hs, t, s_pre, n, (x, y)) && hs[x][y] != t implies hs[x][y]
                    + DIFFERENCE <= t by {
                assert(seen(s_post, x, y));
                if seen(s0, x, y) {
                    assert(s0.contains(key_of(x, y) as usize));
                }
            }
        }
        if res_pre && sub {
            assert forall|x: int, y: int|
                #![trigger seen(s_post, x, y)]
                in_grid(hs, x, y) && seen(s_post, x, y) && !seen(s0, x, y) && hs[x][y] != t implies hs[x][y]
                    + DIFFERENCE <= t by {
                if seen(s_pre, x, y) {
                } else {
                    assert(fill_reaches(hs, t, s_pre, n, (x, y)));
                }
            }
        }
    }
}

/// Once every neighbour of `p` is recorded, the fill from `p` is complete.
proof fn lemma_progress_finish(
    pts0: Seq<Vec<MapPoint>>,
    s0: Set<usize>,
    p: (int, int),
    t: int,
    r: bool,
    pts: Seq<Vec<MapPoint>>,
    s: Set<usize>,
    res: bool,
)
    requires
        fill_ready(pts0),
        in_grid(heights_of(pts0), p.0, p.1),
        !seen(s0, p.0, p.1),
        heights_of(pts0)[p.0][p.1] == t,
        fill_progress(pts0, s0, p, t, r, pts, s, res),
        neighbors_seen(heights_of(pts0), s, p.0, p.1),
    ensures
        fill_set_post(heights_of(pts0), t, s0, p, s),
        fill_grid_post(pts0, t, s0, p, r, pts),
        res == fill_result(heights_of(pts0), t, s0, p),
{
    let hs = heights_of(pts0);
    assert forall|x: int, y: int|
        #![trigger seen(s, x, y)]
        in_grid(hs, x, y) && seen(s, x, y) && !seen(s0, x, y) && hs[x][y] == t implies neighbors_seen(
        hs,
        s,
        x,
        y,
    ) by {
        if (x, y) != p {
            assert(closed_except(hs, s0, s, t, p));
        }
    }
    assert forall|x: int, y: int| in_grid(hs, x, y) implies ((seen(s, x, y) && !seen(s0, x, y))
        <==> #[trigger] fill_reaches(hs, t, s0, p, (x, y))) by {
        lemma_key_roundtrip(hs, x, y);
        let k = key_of(x, y) as usize;
        if fill_reaches(hs, t, s0, p, (x, y)) {
            let path = choose|path: Seq<(int, int)>|
                #[trigger] is_fill_path(hs, t, s0, path) && path[0] == p && path.last() == (x, y);
            lemma_walk(hs, t, s0, s, path, path.len() - 1);
            lemma_reach_end(hs, t, s0, p, (x, y));
        }
        if seen(s, x, y) && !seen(s0, x, y) {
            assert(s.contains(k) && !s0.contains(k));
        }
    }
    assert forall|k: usize|
        #![trigger s.contains(k)]
        #![trigger s0.contains(k)]
        s.contains(k) <==> (s0.contains(k) || (in_grid(hs, key_x(k), key_y(k)) && fill_reaches(
            hs,
            t,
            s0,
            p,
            (key_x(k), key_y(k)),
        ))) by {
        lemma_key_decode(k);
        if in_grid(hs, key_x(k), key_y(k)) && fill_reaches(hs, t, s0, p, (key_x(k), key_y(k))) {
            assert(seen(s, key_x(k), key_y(k)));
        }
        if s.contains(k) && !s0.contains(k) {
        }
    }
    assert forall|x: int, y: int| in_grid(hs, x, y) implies #[trigger] pts[x]@[y] == (if fill_reaches(
        hs,
        t,
        s0,
        p,
        (x, y),
    ) && hs[x][y] == t {
        with_spot(pts0[x]@[y], r)
    } else {
        pts0[x]@[y]
    }) by {
        assert(fill_reaches(hs, t, s0, p, (x, y)) <==> (seen(s, x, y) && !seen(s0, x, y)));
    }
    assert(res == fill_result(hs, t, s0, p)) by {
        assert(res == new_cells_low(hs, s0, s, t));
        if res {
            assert forall|x: int, y: int|
                #![trigger fill_reaches(hs, t, s0, p, (x, y))]
                in_grid(hs, x, y) && fill_reaches(hs, t, s0, p, (x, y)) && hs[x][y] != t implies hs[x][y]
                    + DIFFERENCE <= t by {
                assert(seen(s, x, y) && !seen(s0, x, y));
            }
        }
        if fill_result(hs, t, s0, p) {
            assert forall|x: int, y: int|
                #![trigger seen(s, x, y)]
                in_grid(hs, x, y) && seen(s, x, y) && !seen(s0, x, y) && hs[x][y] != t implies hs[x][y]
                    + DIFFERENCE <= t by {
                assert(fill_reaches(hs, t, s0, p, (x, y)));
            }
        }
    }
}

/// Flood fills the plateau of height `target_height` around `(x, y)`, setting the
/// overlord flag of each of its cells to `replacement` and recording every visited
/// cell, the plateau and the cells around it, in `set`. Returns whether every cell
/// around the plateau lies at least `DIFFERENCE` below it.
pub fn flood_fill_overlord(
    points: &mut Vec<Vec<MapPoint>>,
    x: usize,
    y: usize,
    target_height: usize,
    replacement: bool,
    set: &mut HashSet<usize>,
) -> (result: bool)
    requires
        fill_ready(old(points)@),
        in_grid(heights_of(old(points)@), x as int, y as int),
    ensures
        fill_set_post(
            heights_of(old(points)@),
            target_height as int,
            old(set)@,
            (x as int, y as int),
            final(set)@,
        ),
        fill_grid_post(
            old(points)@,
            target_height as int,
            old(set)@,
            (x as int, y as int),
            replacement,
            final(points)@,
        ),
        result == fill_result(
            heights_of(old(points)@),
            target_height as int,
            old(set)@,
            (x as int, y as int),
        ),
    decreases unseen_cells(old(points)@, old(set)@),
{
    let ghost pts0 = points@;
    let ghost s0 = set@;
    let ghost p = (x as int, y as int);
    let ghost t = target_height as int;
    let ghost hs = heights_of(pts0);
    proof {
        lemma_key_roundtrip(hs, x as int, y as int);
        assert(hs[x as int].len() == height_of(hs));
        assert(hs[x as int].len() == pts0[x as int]@.len());
        lemma_heights_of(pts0, x as int, y as int);
        assert(hs[0].len() == pts0[0]@.len());
    }
    let key = x + y * Y_MULT;
    if set.contains(&key) {
        proof {
            lemma_start_seen(pts0, t, s0, p);
        }
        return true;
    }
    set.insert(key);
    if target_height != points[x][y].height {
        proof {
            lemma_start_other_height(pts0, t, s0, p, replacement);
        }
        // Height difference must be at least DIFFERENCE below the target.
        if target_height < points[x][y].height + DIFFERENCE {
            return false;
        }
        return true;
    }
    let mut result = true;
    points[x][y].overlord_spot = replacement;
    proof {
        lemma_start_progress(pts0, t, s0, p, replacement, points@, set@);
    }
    if y > 0 {
        let ghost pts_pre = points@;
        let ghost s_pre = set@;
        let ghost res_pre = result;
        proof {
            lemma_progress_heights(pts0, s0, p, t, replacement, pts_pre, s_pre, res_pre);
            lemma_progress_measure(pts0, s0, p, t, replacement, pts_pre, s_pre, res_pre);
        }
        let sub = flood_fill_overlord(points, x, y - 1, target_height, replacement, set);
        result = result && sub;
        proof {
            lemma_progress_step(
                pts0,
                s0,
                p,
                t,
                replacement,
                pts_pre,
                s_pre,
                res_pre,
                (x as int, y - 1 as int),
                points@,
                set@,
                sub,
            );
        }
    }
    if x > 0 {
        let ghost pts_pre = points@;
        let ghost s_pre = set@;
        let ghost res_pre = result;
        proof {
            lemma_progress_heights(pts0, s0, p, t, replacement, pts_pre, s_pre, res_pre);
            lemma_progress_measure(pts0, s0, p, t, replacement, pts_pre, s_pre, res_pre);
        }
        let sub = flood_fill_overlord(points, x - 1, y, target_height, replacement, set);
        result = result && sub;
        proof {
            lemma_progress_step(
                pts0,
                s0,
                p,
                t,
                replacement,
                pts_pre,
                s_pre,
                res_pre,
                (x - 1 as int, y as int),
                points@,
                set@,
                sub,
            );
        }
    }
    if y < points[0].len() - 1 {
        let ghost pts_pre = points@;
        let ghost s_pre = set@;
        let ghost res_pre = result;
        proof {
            lemma_progress_heights(pts0, s0, p, t, replacement, pts_pre, s_pre, res_pre);
            lemma_progress_measure(pts0, s0, p, t, replacement, pts_pre, s_pre, res_pre);
        }
        let sub = flood_fill_overlord(points, x, y + 1, target_height, replacement, set);
        result = result && sub;
        proof {
            lemma_progress_step(
                pts0,
                s0,
                p,
                t,
                replacement,
                pts_pre,
                s_pre,
                res_pre,
                (x as int, y + 1 as int),
                points@,
                set@,
                sub,
            );
        }
    }
    if x < points.len() - 1 {
        let ghost pts_pre = points@;
        let ghost s_pre = set@;
        let ghost res_pre = result;
        proof {
            lemma_progress_heights(pts0, s0, p, t, replacement, pts_pre, s_pre, res_pre);
            lemma_progress_measure(pts0, s0, p, t, replacement, pts_pre, s_pre, res_pre);
        }
        let sub = flood_fill_overlord(points, x + 1, y, target_height, replacement, set);
        result = result && sub;
        proof {
            lemma_progress_step(
                pts0,
                s0,
                p,
                t,
                replacement,
                pts_pre,
                s_pre,
                res_pre,
                (x + 1 as int, y as int),
                points@,
                set@,
                sub,
            );
        }
    }
    proof {
        lemma_progress_finish(pts0, s0, p, t, replacement, points@, set@, result);
    }
    result
}

} // verus!
