use vstd::prelude::*;
use std::collections::HashSet;
use crate::map_point::MapPoint;
use crate::map::OverlordSpot;
use crate::grid::{heights_of, in_grid, key_of, key_x, key_y, lemma_key_roundtrip, lemma_key_decode, Y_MULT};
use crate::flood::{
    fill_ready, fill_reaches, fill_result, fill_grid_post, flood_fill_overlord,
    with_spot, same_shape, lemma_heights_of,
};

verus! {

broadcast use vstd::std_specs::hash::group_hash_axioms;

/// The overlord flag of every cell.
pub open spec fn flags_of(pts: Seq<Vec<MapPoint>>) -> Seq<Seq<bool>> {
    pts.map_values(|row: Vec<MapPoint>| row@.map_values(|p: MapPoint| p.overlord_spot))
}

/// Only overlord flags differ between the two grids.
pub open spec fn only_flags_changed(a: Seq<Vec<MapPoint>>, b: Seq<Vec<MapPoint>>) -> bool {
    &&& same_shape(a, b)
    &&& forall|x: int, y: int|
        0 <= x < a.len() && 0 <= y < a[x]@.len() ==> #[trigger] b[x]@[y] == with_spot(
            a[x]@[y],
            b[x]@[y].overlord_spot,
        )
}

/// The keys of the cells that a fill from `(x, y)` with nothing recorded visits:
/// the plateau of `(x, y)`'s height around it and the cells bordering that plateau.
pub open spec fn plateau_keys(hs: Seq<Seq<usize>>, x: int, y: int) -> Set<usize> {
    Set::new(
        |k: usize|
            in_grid(hs, key_x(k), key_y(k)) && fill_reaches(
                hs,
                hs[x][y] as int,
                Set::empty(),
                (x, y),
                (key_x(k), key_y(k)),
            ),
    )
}

pub open spec fn add_key_x(acc: int, k: usize) -> int {
    acc + key_x(k)
}

pub open spec fn add_key_y(acc: int, k: usize) -> int {
    acc + key_y(k)
}

/// Adds the column of a key to a running sum.
pub open spec fn sum_x_step() -> spec_fn(int, usize) -> int {
    |acc: int, k: usize| add_key_x(acc, k)
}

/// Adds the row of a key to a running sum.
pub open spec fn sum_y_step() -> spec_fn(int, usize) -> int {
    |acc: int, k: usize| add_key_y(acc, k)
}

/// The spot that the visited cells `ks` make: their coordinate sums and their number.
pub open spec fn spot_of(ks: Set<usize>) -> OverlordSpot {
    OverlordSpot {
        sum_x: ks.fold(0int, sum_x_step()) as u128,
        sum_y: ks.fold(0int, sum_y_step()) as u128,
        count: ks.len() as usize,
    }
}

/// The flags after a fill from `(x, y)` that writes `r` onto its plateau.
pub open spec fn flags_filled(
    hs: Seq<Seq<usize>>,
    flags: Seq<Seq<bool>>,
    x: int,
    y: int,
    r: bool,
) -> Seq<Seq<bool>> {
    Seq::new(
        flags.len(),
        |i: int|
            Seq::new(
                flags[i].len(),
                |j: int|
                    if fill_reaches(hs, hs[x][y] as int, Set::empty(), (x, y), (i, j)) && hs[i][j]
                        == hs[x][y] {
                        r
                    } else {
                        flags[i][j]
                    },
            ),
    )
}

/// One step of the overlord scan at `(x, y)`, on the flags, the handled keys and the
/// spots found so far. A flagged cell that no earlier spot covered starts a fill of
/// its plateau: when every cell around the plateau lies low enough, the plateau stays
/// flagged, its visited cells become handled and they make a new spot; otherwise the
/// plateau loses its flags.
pub open spec fn scan_step(
    hs: Seq<Seq<usize>>,
    st: (Seq<Seq<bool>>, Set<usize>, Seq<OverlordSpot>),
    x: int,
    y: int,
) -> (Seq<Seq<bool>>, Set<usize>, Seq<OverlordSpot>) {
    let (flags, handled, spots) = st;
    if !handled.contains(key_of(x, y) as usize) && flags[x][y] {
        if fill_result(hs, hs[x][y] as int, Set::empty(), (x, y)) {
            (
                flags_filled(hs, flags, x, y, true),
                handled.union(plateau_keys(hs, x, y)),
                spots.push(spot_of(plateau_keys(hs, x, y))),
            )
        } else {
            (flags_filled(hs, flags, x, y, false), handled, spots)
        }
    } else {
        st
    }
}

/// Sums of key coordinates do not depend on the order in which keys are added.
pub(crate) proof fn lemma_sum_steps_commute()
    ensures
        vstd::set::fold::is_fun_commutative(sum_x_step()),
        vstd::set::fold::is_fun_commutative(sum_y_step()),
{
    assert forall|a1: usize, a2: usize, b: int|
        #[trigger] (sum_x_step())((sum_x_step())(b, a2), a1) == (sum_x_step())(
            (sum_x_step())(b, a1),
            a2,
        ) by {}
    assert forall|a1: usize, a2: usize, b: int|
        #[trigger] (sum_y_step())((sum_y_step())(b, a2), a1) == (sum_y_step())(
            (sum_y_step())(b, a1),
            a2,
        ) by {}
}

proof fn lemma_sum_step(sq: Seq<usize>, i: int)
    requires
        sq.no_duplicates(),
        0 <= i < sq.len(),
    ensures
        sq.take(i + 1).to_set() == sq.take(i).to_set().insert(sq[i]),
        sq.take(i + 1).to_set().fold(0int, sum_x_step()) == sq.take(i).to_set().fold(
            0int,
            sum_x_step(),
        ) + key_x(sq[i]),
        sq.take(i + 1).to_set().fold(0int, sum_y_step()) == sq.take(i).to_set().fold(
            0int,
            sum_y_step(),
        ) + key_y(sq[i]),
{
    let a = sq.take(i);
    assert(sq.take(i + 1) =~= a.push(sq[i]));
    a.lemma_push_to_set_commute(sq[i]);
    vstd::seq_lib::seq_to_set_is_finite(a);
    assert(!a.to_set().contains(sq[i])) by {
        if a.contains(sq[i]) {
            let j = choose|j: int| 0 <= j < a.len() && a[j] == sq[i];
            assert(sq[j] == sq[i]);
        }
    }
    lemma_sum_steps_commute();
    vstd::set::fold::lemma_fold_insert(a.to_set(), 0int, sum_x_step(), sq[i]);
    vstd::set::fold::lemma_fold_insert(a.to_set(), 0int, sum_y_step(), sq[i]);
}

proof fn lemma_fill_flags(
    pts0: Seq<Vec<MapPoint>>,
    t: int,
    p: (int, int),
    r: bool,
    pts1: Seq<Vec<MapPoint>>,
)
    requires
        fill_ready(pts0),
        in_grid(heights_of(pts0), p.0, p.1),
        t == heights_of(pts0)[p.0][p.1],
        fill_grid_post(pts0, t, Set::empty(), p, r, pts1),
    ensures
        flags_of(pts1) =~~= flags_filled(heights_of(pts0), flags_of(pts0), p.0, p.1, r),
        only_flags_changed(pts0, pts1),
        heights_of(pts1) =~~= heights_of(pts0),
        fill_ready(pts1),
{
    let hs = heights_of(pts0);
    assert(hs.len() == pts0.len());
    assert forall|i: int| 0 <= i < pts0.len() implies #[trigger] pts0[i]@.len() == hs[0].len() by {
        assert(hs[i].len() == hs[0].len());
    }
    assert forall|x: int, y: int|
        0 <= x < pts0.len() && 0 <= y < pts0[x]@.len() implies #[trigger] pts1[x]@[y] == with_spot(
        pts0[x]@[y],
        pts1[x]@[y].overlord_spot,
    ) by {
        assert(in_grid(hs, x, y));
    }
    assert forall|i: int| 0 <= i < pts1.len() implies #[trigger] heights_of(pts1)[i] =~= hs[i] by {
        assert forall|j: int| 0 <= j < hs[i].len() implies heights_of(pts1)[i][j] == hs[i][j] by {
            assert(in_grid(hs, i, j));
        }
    }
    assert(heights_of(pts1) =~= hs);
    let f = flags_filled(hs, flags_of(pts0), p.0, p.1, r);
    assert forall|i: int| 0 <= i < pts1.len() implies #[trigger] flags_of(pts1)[i] =~= f[i] by {
        assert forall|j: int| 0 <= j < pts1[i]@.len() implies flags_of(pts1)[i][j] == f[i][j] by {
            assert(in_grid(hs, i, j));
        }
    }
}

/// The overlord scan at one cell of the third pass.
pub fn scan_overlord(
    points: &mut Vec<Vec<MapPoint>>,
    handled: &mut HashSet<usize>,
    spots: &mut Vec<OverlordSpot>,
    x: usize,
    y: usize,
)
    requires
        fill_ready(old(points)@),
        in_grid(heights_of(old(points)@), x as int, y as int),
    ensures
        only_flags_changed(old(points)@, final(points)@),
        heights_of(final(points)@) =~~= heights_of(old(points)@),
        flags_of(final(points)@) =~~= scan_step(
            heights_of(old(points)@),
            (flags_of(old(points)@), old(handled)@, old(spots)@),
            x as int,
            y as int,
        ).0,
        final(handled)@ == scan_step(
            heights_of(old(points)@),
            (flags_of(old(points)@), old(handled)@, old(spots)@),
            x as int,
            y as int,
        ).1,
        final(spots)@ == scan_step(
            heights_of(old(points)@),
            (flags_of(old(points)@), old(handled)@, old(spots)@),
            x as int,
            y as int,
        ).2,
{
    let ghost pts0 = points@;
    let ghost hs = heights_of(pts0);
    let ghost p = (x as int, y as int);
    proof {
        lemma_key_roundtrip(hs, x as int, y as int);
        assert(hs[x as int].len() == hs[0].len());
        assert(hs[x as int].len() == pts0[x as int]@.len());
        lemma_heights_of(pts0, x as int, y as int);
    }
    let point_hash = x + y * Y_MULT;
    if !handled.contains(&point_hash) && points[x][y].overlord_spot {
        let target_height = points[x][y].height;
        let mut set: HashSet<usize> = HashSet::new();
        if flood_fill_overlord(points, x, y, target_height, true, &mut set) {
            proof {
                lemma_fill_flags(pts0, target_height as int, p, true, points@);
                assert(set@ =~= plateau_keys(hs, x as int, y as int));
            }
            let count = set.len();
            let mut sum_x: u128 = 0;
            let mut sum_y: u128 = 0;
            let ghost handled0 = handled@;
            let ghost ks = set@;
            proof {
                vstd::set::fold::lemma_fold_empty(0int, sum_x_step());
                vstd::set::fold::lemma_fold_empty(0int, sum_y_step());
                assert forall|sq: Seq<usize>| #[trigger] sq.take(0).to_set() == Set::<usize>::empty() by {
                    assert(sq.take(0).to_set() =~= Set::<usize>::empty());
                }
            }
            for value in it: set.iter()
                invariant
                    ks == set@,
                    ks.finite(),
                    count == ks.len(),
                    it.seq().unref().no_duplicates(),
                    it.seq().len() == ks.len(),
                    it.seq().unref().to_set() == ks,
                    handled@ == handled0.union(it.seq().unref().take(it.index() as int).to_set()),
                    sum_x as int == it.seq().unref().take(it.index() as int).to_set().fold(
                        0int,
                        sum_x_step(),
                    ),
                    sum_y as int == it.seq().unref().take(it.index() as int).to_set().fold(
                        0int,
                        sum_y_step(),
                    ),
                    sum_x <= it.index() * (Y_MULT as int),
                    sum_y <= it.index() * (usize::MAX as int),
                    it.index() <= usize::MAX,
                    it.seq().unref().take(it.seq().len() as int) == it.seq().unref(),
            {
                let ghost i = it.index();
                let ghost sq = it.seq().unref();
                proof {
                    lemma_sum_step(sq, i as int);
                    assert(sq[i as int] == *value);
                    assert(i * (Y_MULT as int) + (Y_MULT as int) == (i + 1) * (Y_MULT as int)) by (nonlinear_arith);
                    assert(i * (usize::MAX as int) + (usize::MAX as int) == (i + 1) * (usize::MAX as int)) by (nonlinear_arith);
                    assert((i + 1) * (usize::MAX as int) <= (usize::MAX as int + 1) * (usize::MAX as int)) by (nonlinear_arith)
                        requires i + 1 <= usize::MAX + 1;
                    assert((i + 1) * (Y_MULT as int) <= (usize::MAX as int + 1) * (usize::MAX as int)) by (nonlinear_arith)
                        requires i + 1 <= usize::MAX + 1;
                    assert((usize::MAX as int + 1) * (usize::MAX as int) <= u128::MAX) by (nonlinear_arith)
                        requires usize::MAX <= u64::MAX;
                    lemma_key_decode(*value);
                    assert(*value / Y_MULT <= usize::MAX);
                }
                handled.insert(*value);
                sum_x = sum_x + (*value % Y_MULT) as u128;
                sum_y = sum_y + (*value / Y_MULT) as u128;
                proof {
                    assert(sq.take(i + 1) =~= sq.take(i as int).push(sq[i as int]));
                }
            }
            spots.push(OverlordSpot { sum_x, sum_y, count });
        } else {
            set.clear();
            let ghost pts1 = points@;
            proof {
                lemma_fill_flags(pts0, target_height as int, p, true, pts1);
            }
            flood_fill_overlord(points, x, y, target_height, false, &mut set);
            proof {
                lemma_fill_flags(pts1, target_height as int, p, false, points@);
            }
        }
    }
}

} // verus!
