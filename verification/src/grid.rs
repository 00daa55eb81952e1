use vstd::prelude::*;
use crate::map_point::MapPoint;

verus! {

/// Multiplier of the row coordinate in a cell's key: `key = x + y * Y_MULT`.
pub const Y_MULT: usize = 1000000;

/// How far below a cliff top the ground must lie for the top to hide an overlord.
pub const DIFFERENCE: usize = 16;

/// The height of every cell of a grid of map points, indexed `[x][y]`.
pub open spec fn heights_of(pts: Seq<Vec<MapPoint>>) -> Seq<Seq<usize>> {
    pts.map_values(|row: Vec<MapPoint>| row@.map_values(|mp: MapPoint| mp.height))
}

/// Number of columns (the first index).
pub open spec fn width_of<T>(g: Seq<Seq<T>>) -> int {
    g.len() as int
}

/// Number of rows (the second index), read from the first column.
pub open spec fn height_of<T>(g: Seq<Seq<T>>) -> int {
    if g.len() > 0 {
        g[0].len() as int
    } else {
        0
    }
}

/// Every column has as many entries as the first one.
pub open spec fn is_rect<T>(g: Seq<Seq<T>>) -> bool {
    forall|i: int| 0 <= i < g.len() ==> #[trigger] g[i].len() == height_of(g)
}

pub open spec fn in_grid<T>(g: Seq<Seq<T>>, x: int, y: int) -> bool {
    0 <= x < width_of(g) && 0 <= y < height_of(g)
}

/// The key under which a cell is recorded in a set of handled cells.
pub open spec fn key_of(x: int, y: int) -> int {
    x + y * (Y_MULT as int)
}

pub open spec fn key_x(k: usize) -> int {
    (k % Y_MULT) as int
}

pub open spec fn key_y(k: usize) -> int {
    (k / Y_MULT) as int
}

/// The cell `(x, y)` is recorded in `s`.
pub open spec fn seen(s: Set<usize>, x: int, y: int) -> bool {
    s.contains(key_of(x, y) as usize)
}

/// Each cell of the grid has its own key, and every key fits in a `usize`.
pub open spec fn keyable<T>(g: Seq<Seq<T>>) -> bool {
    &&& width_of(g) <= Y_MULT
    &&& height_of(g) * (Y_MULT as int) <= usize::MAX + 1
}

/// Two cells of the grid share a side.
pub open spec fn adjacent<T>(g: Seq<Seq<T>>, a: (int, int), b: (int, int)) -> bool {
    &&& in_grid(g, a.0, a.1)
    &&& in_grid(g, b.0, b.1)
    &&& ((a.0 == b.0 && (a.1 == b.1 + 1 || b.1 == a.1 + 1)) || (a.1 == b.1 && (a.0 == b.0 + 1
        || b.0 == a.0 + 1)))
}

/// A grid of map points whose heights can be compared with `DIFFERENCE` added.
pub open spec fn heights_bounded(hs: Seq<Seq<usize>>) -> bool {
    forall|x: int, y: int| in_grid(hs, x, y) ==> #[trigger] hs[x][y] + DIFFERENCE <= usize::MAX
}

pub proof fn lemma_key_roundtrip<T>(g: Seq<Seq<T>>, x: int, y: int)
    requires
        keyable(g),
        in_grid(g, x, y),
    ensures
        0 <= key_of(x, y) <= usize::MAX,
        key_x(key_of(x, y) as usize) == x,
        key_y(key_of(x, y) as usize) == y,
{
    assert(y * (Y_MULT as int) <= (height_of(g) - 1) * (Y_MULT as int)) by (nonlinear_arith)
        requires
            y <= height_of(g) - 1,
    ;
    vstd::arithmetic::div_mod::lemma_fundamental_div_mod_converse(
        key_of(x, y),
        Y_MULT as int,
        y,
        x,
    );
}

pub proof fn lemma_key_decode(k: usize)
    ensures
        key_of(key_x(k), key_y(k)) == k,
        0 <= key_x(k) < Y_MULT,
        0 <= key_y(k),
{
    vstd::arithmetic::div_mod::lemma_fundamental_div_mod(k as int, Y_MULT as int);
}

pub proof fn lemma_key_injective<T>(g: Seq<Seq<T>>, x1: int, y1: int, x2: int, y2: int)
    requires
        keyable(g),
        in_grid(g, x1, y1),
        in_grid(g, x2, y2),
        key_of(x1, y1) as usize == key_of(x2, y2) as usize,
    ensures
        x1 == x2,
        y1 == y2,
{
    lemma_key_roundtrip(g, x1, y1);
    lemma_key_roundtrip(g, x2, y2);
}

} // verus!
