//! Placing tiles into a square grid and compositing the borderless image.
//!
//! Placement runs in two passes over the grid in row-major order: first the
//! tile identifiers are placed so that adjacency degrees and matched pairs
//! are respected, then one of the eight variants of each placed tile is
//! chosen so that touching borders are pixel-equal.  A final global check
//! confirms the border agreement before the composite image is cut.

use vstd::prelude::*;
use crate::grid::gsview;
use crate::grid::gview;
use crate::grid::grid_wf;
use crate::grid::lemma_flip_of_variant;
use crate::grid::lemma_rotation_of_variant;
use crate::grid::lemma_variants_wf;
use crate::grid::spec_flip;
use crate::grid::spec_rotate_left;
use crate::grid::spec_variants;
use crate::matching::Tile;
use crate::matching::degree;
use crate::matching::share_border;
use crate::matching::tile_wf;

verus! {

/// The terminal failures of the pipeline.
#[derive(PartialEq, Eq, Structural, Clone, Copy, Debug)]
pub enum PuzzleError {
    /// A tile's adjacency degree is impossible, or the tile count is not a
    /// perfect square.
    MalformedInstance,
    /// The row-major scan could not place or orient a tile consistently.
    Unplaceable,
    /// No orientation of the composite image contains the motif.
    NoMotifFound,
}

/// Horizontal border agreement: the right column of `a` equals the left
/// column of `b`, both grids square of side `n`.
pub open spec fn hmatch(a: Seq<Seq<bool>>, b: Seq<Seq<bool>>, n: nat) -> bool {
    forall|t: int| 0 <= t < n ==> #[trigger] a[t][n - 1] == b[t][0]
}

/// Vertical border agreement: the bottom row of `a` equals the top row of
/// `b`.
pub open spec fn vmatch(a: Seq<Seq<bool>>, b: Seq<Seq<bool>>, n: nat) -> bool {
    a[n - 1] == b[0]
}

/// Decides horizontal border agreement of two square grids of side `n`.
pub fn check_hmatch(a: &Vec<Vec<bool>>, b: &Vec<Vec<bool>>) -> (r: bool)
    requires
        grid_wf(gview(a@), a@.len() as nat),
        grid_wf(gview(b@), a@.len() as nat),
        a@.len() >= 1,
    ensures
        r == hmatch(gview(a@), gview(b@), a@.len() as nat),
{
    let n = a.len();
    let mut t: usize = 0;
    while t < n
        invariant
            t <= n,
            n == a@.len(),
            n >= 1,
            grid_wf(gview(a@), n as nat),
            grid_wf(gview(b@), n as nat),
            forall|s: int| 0 <= s < t ==> #[trigger] gview(a@)[s][n - 1] == gview(b@)[s][0],
        decreases n - t,
    {
        proof {
            assert(gview(a@)[t as int].len() == n);
            assert(gview(b@)[t as int].len() == n);
            assert(a@[t as int]@.len() == n);
            assert(b@[t as int]@.len() == n);
        }
        if a[t][n - 1] != b[t][0] {
            return false;
        }
        t = t + 1;
    }
    true
}

/// Decides vertical border agreement of two square grids of side `n`.
pub fn check_vmatch(a: &Vec<Vec<bool>>, b: &Vec<Vec<bool>>) -> (r: bool)
    requires
        grid_wf(gview(a@), a@.len() as nat),
        grid_wf(gview(b@), a@.len() as nat),
        a@.len() >= 1,
    ensures
        r == vmatch(gview(a@), gview(b@), a@.len() as nat),
{
    let n = a.len();
    let r = crate::matching::rows_equal(&a[n - 1], &b[0]);
    proof {
        assert(gview(a@)[n - 1] == a@[n - 1]@);
        assert(gview(b@)[0] == b@[0]@);
    }
    r
}

/// Finds the first variant whose left column equals the right column of the
/// already placed left neighbour.
pub fn tile_by_right(left: &Vec<Vec<bool>>, possibilities: &Vec<Vec<Vec<bool>>>) -> (r: Option<
    usize,
>)
    requires
        grid_wf(gview(left@), left@.len() as nat),
        left@.len() >= 1,
        forall|k: int|
            0 <= k < possibilities@.len()
                ==> grid_wf(#[trigger] gsview(possibilities@)[k], left@.len() as nat),
    ensures
        match r {
            Some(v) => v < possibilities@.len() && hmatch(
                gview(left@),
                gsview(possibilities@)[v as int],
                left@.len() as nat,
            ) && forall|k: int|
                0 <= k < v
                    ==> !hmatch(
                    gview(left@),
                    #[trigger] gsview(possibilities@)[k],
                    left@.len() as nat,
                ),
            None => forall|k: int|
                0 <= k < possibilities@.len()
                    ==> !hmatch(
                    gview(left@),
                    #[trigger] gsview(possibilities@)[k],
                    left@.len() as nat,
                ),
        },
{
    let n = left.len();
    let mut k: usize = 0;
    while k < possibilities.len()
        invariant
            k <= possibilities@.len(),
            n == left@.len(),
            n >= 1,
            grid_wf(gview(left@), n as nat),
            forall|s: int|
                0 <= s < possibilities@.len()
                    ==> grid_wf(#[trigger] gsview(possibilities@)[s], n as nat),
            forall|s: int|
                0 <= s < k
                    ==> !hmatch(gview(left@), #[trigger] gsview(possibilities@)[s], n as nat),
        decreases possibilities@.len() - k,
    {
        proof {
            assert(gsview(possibilities@)[k as int] == gview(possibilities@[k as int]@));
        }
        if check_hmatch(left, &possibilities[k]) {
            return Some(k);
        }
        k = k + 1;
    }
    None
}

/// Finds the first variant whose top row equals the bottom row of the
/// already placed upper neighbour.
pub fn tile_by_down(up: &Vec<Vec<bool>>, possibilities: &Vec<Vec<Vec<bool>>>) -> (r: Option<usize>)
    requires
        grid_wf(gview(up@), up@.len() as nat),
        up@.len() >= 1,
        forall|k: int|
            0 <= k < possibilities@.len()
                ==> grid_wf(#[trigger] gsview(possibilities@)[k], up@.len() as nat),
    ensures
        match r {
            Some(v) => v < possibilities@.len() && vmatch(
                gview(up@),
                gsview(possibilities@)[v as int],
                up@.len() as nat,
            ) && forall|k: int|
                0 <= k < v
                    ==> !vmatch(gview(up@), #[trigger] gsview(possibilities@)[k], up@.len() as nat),
            None => forall|k: int|
                0 <= k < possibilities@.len()
                    ==> !vmatch(gview(up@), #[trigger] gsview(possibilities@)[k], up@.len() as nat),
        },
{
    let n = up.len();
    let mut k: usize = 0;
    while k < possibilities.len()
        invariant
            k <= possibilities@.len(),
            n == up@.len(),
            n >= 1,
            grid_wf(gview(up@), n as nat),
            forall|s: int|
                0 <= s < possibilities@.len()
                    ==> grid_wf(#[trigger] gsview(possibilities@)[s], n as nat),
            forall|s: int|
                0 <= s < k ==> !vmatch(gview(up@), #[trigger] gsview(possibilities@)[s], n as nat),
        decreases possibilities@.len() - k,
    {
        proof {
            assert(gsview(possibilities@)[k as int] == gview(possibilities@[k as int]@));
        }
        if check_vmatch(up, &possibilities[k]) {
            return Some(k);
        }
        k = k + 1;
    }
    None
}

/// The mathematical view of a placement grid of (tile index, variant index)
/// pairs.
pub open spec fn cview(v: Seq<Vec<(usize, usize)>>) -> Seq<Seq<(usize, usize)>> {
    Seq::new(v.len(), |i: int| v[i]@)
}

/// The common side length of the tiles of a set.
pub open spec fn tile_side(tiles: Seq<Tile>) -> nat {
    tiles[0].grids@[0]@.len()
}

/// Every tile of the set holds eight square variants of the common side.
pub open spec fn tiles_wf(tiles: Seq<Tile>) -> bool {
    forall|k: int| 0 <= k < tiles.len() ==> tile_wf(#[trigger] tiles[k], tile_side(tiles))
}

/// The placement grid has side `d` and indexes real tiles and variants.
pub open spec fn cells_shape(cells: Seq<Seq<(usize, usize)>>, d: int, ntiles: int) -> bool {
    &&& cells.len() == d
    &&& forall|r: int| 0 <= r < d ==> (#[trigger] cells[r]).len() == d
    &&& forall|r: int, c: int|
        0 <= r < d && 0 <= c < d ==> (#[trigger] cells[r][c]).0 < ntiles && cells[r][c].1 < 8
}

/// The chosen variant grid standing at cell (r, c).
pub open spec fn cell_grid(
    tiles: Seq<Tile>,
    cells: Seq<Seq<(usize, usize)>>,
    r: int,
    c: int,
) -> Seq<Seq<bool>> {
    gsview(tiles[cells[r][c].0 as int].grids@)[cells[r][c].1 as int]
}

/// No tile index stands in two different cells.
pub open spec fn distinct_cells(cells: Seq<Seq<(usize, usize)>>, d: int) -> bool {
    forall|r1: int, c1: int, r2: int, c2: int|
        #![trigger cells[r1][c1], cells[r2][c2]]
        0 <= r1 < d && 0 <= c1 < d && 0 <= r2 < d && 0 <= c2 < d && (r1 != r2 || c1 != c2)
            ==> cells[r1][c1].0 != cells[r2][c2].0
}

/// Every pair of grid-adjacent cells agrees on the touching border pixels.
pub open spec fn borders_ok(
    tiles: Seq<Tile>,
    cells: Seq<Seq<(usize, usize)>>,
    d: int,
    n: nat,
) -> bool {
    &&& forall|r: int, c: int|
        #![trigger cell_grid(tiles, cells, r, c)]
        0 <= r < d && 0 <= c && c + 1 < d
            ==> hmatch(cell_grid(tiles, cells, r, c), cell_grid(tiles, cells, r, c + 1), n)
    &&& forall|r: int, c: int|
        #![trigger cell_grid(tiles, cells, r, c)]
        0 <= r && r + 1 < d && 0 <= c < d
            ==> vmatch(cell_grid(tiles, cells, r, c), cell_grid(tiles, cells, r + 1, c), n)
}

/// A valid assembly: a full square placement grid, each tile used exactly
/// once, and all touching borders pixel-equal.
pub open spec fn assembly_ok(
    tiles: Seq<Tile>,
    cells: Seq<Seq<(usize, usize)>>,
    d: int,
    n: nat,
) -> bool {
    &&& cells_shape(cells, d, tiles.len() as int)
    &&& distinct_cells(cells, d)
    &&& borders_ok(tiles, cells, d, n)
}

/// The pixel of the composite image at (r, c): the interior pixel of the
/// placed variant grid that the coordinate falls into, past the border ring.
pub open spec fn comp_px(
    tiles: Seq<Tile>,
    cells: Seq<Seq<(usize, usize)>>,
    n: nat,
    r: int,
    c: int,
) -> bool {
    cell_grid(tiles, cells, r / (n - 2), c / (n - 2))[r % (n - 2) + 1][c % (n - 2) + 1]
}

/// The composite image has side `d * (n - 2)` and each of its pixels is the
/// corresponding interior pixel of the placed variant grids.
pub open spec fn composite_rel(
    img: Seq<Seq<bool>>,
    tiles: Seq<Tile>,
    cells: Seq<Seq<(usize, usize)>>,
    d: int,
    n: nat,
) -> bool {
    &&& img.len() == d * (n - 2)
    &&& forall|r: int| 0 <= r < img.len() ==> (#[trigger] img[r]).len() == d * (n - 2)
    &&& forall|r: int, c: int|
        0 <= r < img.len() && 0 <= c < img.len()
            ==> #[trigger] img[r][c] == comp_px(tiles, cells, n, r, c)
}

/// Whether `e` is the integer side of a square grid of `cnt` cells.
pub open spec fn is_square_root(e: int, cnt: int) -> bool {
    e * e == cnt
}

/// The tile count admits no integer grid side.
pub open spec fn no_square_dim(cnt: int) -> bool {
    forall|e: int| 0 <= e ==> !#[trigger] is_square_root(e, cnt)
}

/// Some tile's adjacency degree lies outside {2, 3, 4}.
pub open spec fn bad_degree(pairs: Seq<(usize, usize)>, tiles: Seq<Tile>) -> bool {
    exists|k: int|
        0 <= k < tiles.len() && !(2 <= degree(pairs, (#[trigger] tiles[k]).id) <= 4)
}

/// Finds the integer side of a square grid of `count` cells.
pub fn grid_dim(count: usize) -> (r: Option<usize>)
    ensures
        match r {
            Some(d) => is_square_root(d as int, count as int),
            None => no_square_dim(count as int),
        },
{
    if count == 0 {
        return Some(0);
    }
    let mut d: usize = 0;
    while d < count
        invariant
            d <= count,
            forall|e: int| 0 <= e < d ==> !#[trigger] is_square_root(e, count as int),
        decreases count - d,
    {
        proof {
            let dd = d as int;
            assert(dd * dd < 0x1_0000_0000_0000_0000_0000_0000_0000_0000) by (nonlinear_arith)
                requires
                    0 <= dd < 0x1_0000_0000_0000_0000,
            ;
        }
        let sq = (d as u128) * (d as u128);
        if sq == count as u128 {
            return Some(d);
        }
        if sq > count as u128 {
            proof {
                assert forall|e: int| 0 <= e implies !is_square_root(e, count as int) by {
                    if d <= e {
                        assert(d * d <= e * e) by (nonlinear_arith)
                            requires
                                0 <= d <= e,
                        ;
                    }
                }
            }
            return None;
        }
        d = d + 1;
    }
    if count == 1 {
        return Some(1);
    }
    proof {
        assert forall|e: int| 0 <= e implies !is_square_root(e, count as int) by {
            if count <= e {
                assert(count * count <= e * e) by (nonlinear_arith)
                    requires
                        0 <= count <= e,
                ;
                assert(count < count * count) by (nonlinear_arith)
                    requires
                        2 <= count,
                ;
            }
        }
    }
    None
}

/// A tile index among the cells strictly before (r, c) in row-major order.
pub open spec fn used_before(
    cells: Seq<Seq<(usize, usize)>>,
    d: int,
    r: int,
    c: int,
    t: int,
) -> bool {
    exists|r2: int, c2: int|
        #![trigger cells[r2][c2]]
        0 <= r2 < d && 0 <= c2 < d && (r2 < r || (r2 == r && c2 < c)) && cells[r2][c2].0 == t
}

spec fn distinct_before(cells: Seq<Seq<(usize, usize)>>, d: int, r: int, c: int) -> bool {
    forall|r1: int, c1: int, r2: int, c2: int|
        #![trigger cells[r1][c1], cells[r2][c2]]
        0 <= r1 < d && 0 <= c1 < d && 0 <= r2 < d && 0 <= c2 < d && (r1 < r || (r1 == r && c1 < c))
            && (r2 < r || (r2 == r && c2 < c)) && (r1 != r2 || c1 != c2)
            ==> cells[r1][c1].0 != cells[r2][c2].0
}

/// Checks that no tile index is used by two different cells.
fn check_distinct(cells: &Vec<Vec<(usize, usize)>>, ntiles: usize) -> (r: bool)
    requires
        cells_shape(cview(cells@), cells@.len() as int, ntiles as int),
    ensures
        r == distinct_cells(cview(cells@), cells@.len() as int),
{
    let d = cells.len();
    let ghost cv = cview(cells@);
    let mut seen: Vec<bool> = Vec::new();
    let mut s: usize = 0;
    while s < ntiles
        invariant
            s <= ntiles,
            seen@.len() == s,
            forall|t: int| 0 <= t < s ==> !(#[trigger] seen@[t]),
        decreases ntiles - s,
    {
        seen.push(false);
        s = s + 1;
    }
    let mut x: usize = 0;
    while x < d
        invariant
            x <= d,
            d == cells@.len(),
            cells_shape(cv, d as int, ntiles as int),
            cv == cview(cells@),
            seen@.len() == ntiles,
            forall|t: int|
                0 <= t < ntiles ==> (#[trigger] seen@[t] <==> used_before(cv, d as int, x as int, 0, t)),
            distinct_before(cv, d as int, x as int, 0),
        decreases d - x,
    {
        let mut y: usize = 0;
        while y < d
            invariant
                x < d,
                y <= d,
                d == cells@.len(),
                cells_shape(cv, d as int, ntiles as int),
                cv == cview(cells@),
                seen@.len() == ntiles,
                forall|t: int|
                    0 <= t < ntiles
                        ==> (#[trigger] seen@[t] <==> used_before(cv, d as int, x as int, y as int, t)),
                distinct_before(cv, d as int, x as int, y as int),
            decreases d - y,
        {
            proof {
                assert(cv[x as int] == cells@[x as int]@);
                assert(cv[x as int].len() == d as int);
            }
            let ti = lookup_cell(cells, x, y).0;
            if seen[ti] {
                proof {
                    let (r2, c2) = choose|r2: int, c2: int|
                        #![trigger cv[r2][c2]]
                        0 <= r2 < d && 0 <= c2 < d && (r2 < x || (r2 == x && c2 < y))
                            && cv[r2][c2].0 == ti as int;
                    assert(cv[r2][c2].0 == cv[x as int][y as int].0);
                    assert(!distinct_cells(cv, d as int));
                }
                return false;
            }
            seen[ti] = true;
            y = y + 1;
            proof {
                assert forall|t: int| 0 <= t < ntiles implies (#[trigger] seen@[t] <==> used_before(
                    cv,
                    d as int,
                    x as int,
                    y as int,
                    t,
                )) by {
                    if t == ti {
                        assert(cv[x as int][y - 1].0 == t);
                    } else {
                        if used_before(cv, d as int, x as int, y as int, t) {
                            let (r2, c2) = choose|r2: int, c2: int|
                                #![trigger cv[r2][c2]]
                                0 <= r2 < d && 0 <= c2 < d && (r2 < x || (r2 == x && c2 < y))
                                    && cv[r2][c2].0 == t;
                            assert(r2 < x || (r2 == x && c2 < y - 1) || (r2 == x && c2 == y - 1));
                            assert(used_before(cv, d as int, x as int, y - 1, t));
                        }
                    }
                }
            }
        }
        x = x + 1;
        proof {
            assert forall|t: int| 0 <= t < ntiles implies (#[trigger] seen@[t] <==> used_before(
                cv,
                d as int,
                x as int,
                0,
                t,
            )) by {
                if seen@[t] {
                    let (r2, c2) = choose|r2: int, c2: int|
                        #![trigger cv[r2][c2]]
                        0 <= r2 < d && 0 <= c2 < d && (r2 < x - 1 || (r2 == x - 1 && c2 < d))
                            && cv[r2][c2].0 == t;
                    assert(r2 < x);
                }
                if used_before(cv, d as int, x as int, 0, t) {
                    let (r2, c2) = choose|r2: int, c2: int|
                        #![trigger cv[r2][c2]]
                        0 <= r2 < d && 0 <= c2 < d && r2 < x && cv[r2][c2].0 == t;
                    assert(r2 < x - 1 || (r2 == x - 1 && c2 < d));
                    assert(used_before(cv, d as int, x - 1, d as int, t));
                }
            }
        }
    }
    proof {
        assert forall|r1: int, c1: int, r2: int, c2: int|
            #![trigger cv[r1][c1], cv[r2][c2]]
            0 <= r1 < d && 0 <= c1 < d && 0 <= r2 < d && 0 <= c2 < d && (r1 != r2 || c1 != c2)
                implies cv[r1][c1].0 != cv[r2][c2].0 by {
            assert(distinct_before(cv, d as int, d as int, 0));
        }
    }
    true
}

/// Checks the global border agreement of the oriented placement.
fn check_borders(tiles: &Vec<Tile>, cells: &Vec<Vec<(usize, usize)>>, n: usize) -> (r: bool)
    requires
        n >= 1,
        forall|k: int| 0 <= k < tiles@.len() ==> tile_wf(#[trigger] tiles@[k], n as nat),
        cells_shape(cview(cells@), cells@.len() as int, tiles@.len() as int),
    ensures
        r == borders_ok(tiles@, cview(cells@), cells@.len() as int, n as nat),
{
    let d = cells.len();
    let ghost cv = cview(cells@);
    let mut x: usize = 0;
    while x < d
        invariant
            x <= d,
            d == cells@.len(),
            n >= 1,
            forall|k: int| 0 <= k < tiles@.len() ==> tile_wf(#[trigger] tiles@[k], n as nat),
            cells_shape(cv, d as int, tiles@.len() as int),
            cv == cview(cells@),
            forall|r: int, c: int|
                #![trigger cell_grid(tiles@, cv, r, c)]
                0 <= r < x && 0 <= c && c + 1 < d
                    ==> hmatch(cell_grid(tiles@, cv, r, c), cell_grid(tiles@, cv, r, c + 1), n as nat),
            forall|r: int, c: int|
                #![trigger cell_grid(tiles@, cv, r, c)]
                0 <= r && r + 1 <= x && r + 1 < d && 0 <= c < d
                    ==> vmatch(cell_grid(tiles@, cv, r, c), cell_grid(tiles@, cv, r + 1, c), n as nat),
        decreases d - x,
    {
        let mut y: usize = 0;
        while y < d
            invariant
                x < d,
                y <= d,
                d == cells@.len(),
                n >= 1,
                forall|k: int| 0 <= k < tiles@.len() ==> tile_wf(#[trigger] tiles@[k], n as nat),
                cells_shape(cv, d as int, tiles@.len() as int),
                cv == cview(cells@),
                forall|r: int, c: int|
                    #![trigger cell_grid(tiles@, cv, r, c)]
                    0 <= r < x && 0 <= c && c + 1 < d
                        ==> hmatch(
                            cell_grid(tiles@, cv, r, c),
                            cell_grid(tiles@, cv, r, c + 1),
                            n as nat,
                        ),
                forall|r: int, c: int|
                    #![trigger cell_grid(tiles@, cv, r, c)]
                    0 <= r && r + 1 <= x && r + 1 < d && 0 <= c < d
                        ==> vmatch(
                            cell_grid(tiles@, cv, r, c),
                            cell_grid(tiles@, cv, r + 1, c),
                            n as nat,
                        ),
                forall|c: int|
                    #![trigger cell_grid(tiles@, cv, x as int, c)]
                    0 <= c && c + 1 < d && c + 1 <= y
                        ==> hmatch(
                            cell_grid(tiles@, cv, x as int, c),
                            cell_grid(tiles@, cv, x as int, c + 1),
                            n as nat,
                        ),
                forall|c: int|
                    #![trigger cell_grid(tiles@, cv, x as int, c)]
                    x + 1 < d && 0 <= c < y
                        ==> vmatch(
                            cell_grid(tiles@, cv, x as int, c),
                            cell_grid(tiles@, cv, x + 1, c),
                            n as nat,
                        ),
            decreases d - y,
        {
            proof {
                assert(cv[x as int] == cells@[x as int]@);
            }
            let (ti, vi) = lookup_cell(cells, x, y);
            proof {
                assert(gsview(tiles@[ti as int].grids@)[vi as int] == gview(
                    tiles@[ti as int].grids@[vi as int]@,
                ));
            }
            if y + 1 < d {
                let (ti2, vi2) = lookup_cell(cells, x, y + 1);
                proof {
                    assert(gsview(tiles@[ti2 as int].grids@)[vi2 as int] == gview(
                        tiles@[ti2 as int].grids@[vi2 as int]@,
                    ));
                }
                if !check_hmatch(&tiles[ti].grids[vi], &tiles[ti2].grids[vi2]) {
                    proof {
                        assert(!hmatch(
                            cell_grid(tiles@, cv, x as int, y as int),
                            cell_grid(tiles@, cv, x as int, y + 1),
                            n as nat,
                        ));
                    }
                    return false;
                }
            }
            if x + 1 < d {
                proof {
                    assert(cv[x + 1] == cells@[x + 1]@);
                }
                let (ti3, vi3) = lookup_cell(cells, x + 1, y);
                proof {
                    assert(gsview(tiles@[ti3 as int].grids@)[vi3 as int] == gview(
                        tiles@[ti3 as int].grids@[vi3 as int]@,
                    ));
                }
                if !check_vmatch(&tiles[ti].grids[vi], &tiles[ti3].grids[vi3]) {
                    proof {
                        assert(!vmatch(
                            cell_grid(tiles@, cv, x as int, y as int),
                            cell_grid(tiles@, cv, x + 1, y as int),
                            n as nat,
                        ));
                    }
                    return false;
                }
            }
            y = y + 1;
        }
        x = x + 1;
    }
    true
}

/// Builds row `tr * (n - 2) + ir` of the composite image: the row `ir + 1`
/// of every placed variant grid of tile row `tr`, with the first and last
/// pixel columns dropped, concatenated left to right.
fn compose_row(
    tiles: &Vec<Tile>,
    cells: &Vec<Vec<(usize, usize)>>,
    n: usize,
    tr: usize,
    ir: usize,
) -> (row: Vec<bool>)
    requires
        n >= 2,
        ir < n - 2,
        tr < cells@.len(),
        forall|k: int| 0 <= k < tiles@.len() ==> tile_wf(#[trigger] tiles@[k], n as nat),
        cells_shape(cview(cells@), cells@.len() as int, tiles@.len() as int),
    ensures
        row@.len() == cells@.len() * (n - 2),
        forall|c0: int|
            0 <= c0 < row@.len()
                ==> #[trigger] row@[c0] == cell_grid(
                tiles@,
                cview(cells@),
                tr as int,
                c0 / (n - 2),
            )[ir + 1][c0 % (n - 2) + 1],
{
    let d = cells.len();
    let ghost cv = cview(cells@);
    let m = n - 2;
    let mut row: Vec<bool> = Vec::new();
    let mut tc: usize = 0;
    while tc < d
        invariant
            tc <= d,
            d == cells@.len(),
            n >= 2,
            m == n - 2,
            ir < m,
            tr < d,
            forall|k: int| 0 <= k < tiles@.len() ==> tile_wf(#[trigger] tiles@[k], n as nat),
            cells_shape(cv, d as int, tiles@.len() as int),
            cv == cview(cells@),
            row@.len() == tc * m,
            forall|c0: int|
                0 <= c0 < row@.len()
                    ==> #[trigger] row@[c0] == cell_grid(tiles@, cv, tr as int, c0 / (m as int))[ir + 1][c0 % (m as int) + 1],
        decreases d - tc,
    {
        proof {
            assert(cv[tr as int] == cells@[tr as int]@);
            assert(cv[tr as int].len() == d as int);
        }
        let (ti, vi) = lookup_cell(cells, tr, tc);
        proof {
            assert(cv[tr as int][tc as int] == (ti, vi));
            assert(gsview(tiles@[ti as int].grids@)[vi as int] == gview(
                tiles@[ti as int].grids@[vi as int]@,
            ));
            assert(grid_wf(gsview(tiles@[ti as int].grids@)[vi as int], n as nat));
        }
        let mut ic: usize = 0;
        while ic < m
            invariant
                ic <= m,
                tc < d,
                d == cells@.len(),
                n >= 2,
                m == n - 2,
                ir < m,
                tr < d,
                forall|k: int| 0 <= k < tiles@.len() ==> tile_wf(#[trigger] tiles@[k], n as nat),
                cells_shape(cv, d as int, tiles@.len() as int),
                cv == cview(cells@),
                ti < tiles@.len(),
                vi < 8,
                cv[tr as int][tc as int] == (ti, vi),
                grid_wf(gview(tiles@[ti as int].grids@[vi as int]@), n as nat),
                row@.len() == tc * m + ic,
                forall|c0: int|
                    0 <= c0 < row@.len()
                        ==> #[trigger] row@[c0] == cell_grid(tiles@, cv, tr as int, c0 / (m as int))[ir + 1][c0 % (m as int) + 1],
            decreases m - ic,
        {
            proof {
                assert(gview(tiles@[ti as int].grids@[vi as int]@)[ir + 1].len() == n);
                assert(tiles@[ti as int].grids@[vi as int]@[ir + 1]@.len() == n);
            }
            let px = tiles[ti].grids[vi][ir + 1][ic + 1];
            row.push(px);
            proof {
                let c0: int = tc * m + ic;
                vstd::arithmetic::div_mod::lemma_fundamental_div_mod_converse(
                    c0,
                    m as int,
                    tc as int,
                    ic as int,
                );
                assert(cell_grid(tiles@, cv, tr as int, tc as int) == gview(
                    tiles@[ti as int].grids@[vi as int]@,
                ));
                assert(row@[c0] == px);
                assert(row@[c0] == cell_grid(tiles@, cv, tr as int, c0 / (m as int))[ir
                    + 1][c0 % (m as int) + 1]);
            }
            ic = ic + 1;
        }
        proof {
            assert(tc * m + m == (tc + 1) * m) by (nonlinear_arith);
        }
        tc = tc + 1;
    }
    row
}

/// Cuts the composite image out of the oriented placement: the one-pixel
/// border ring of every placed variant is dropped and the interiors are
/// concatenated into one large grid.
fn compose(tiles: &Vec<Tile>, cells: &Vec<Vec<(usize, usize)>>, n: usize) -> (img: Vec<Vec<bool>>)
    requires
        n >= 2,
        forall|k: int| 0 <= k < tiles@.len() ==> tile_wf(#[trigger] tiles@[k], n as nat),
        cells_shape(cview(cells@), cells@.len() as int, tiles@.len() as int),
    ensures
        composite_rel(gview(img@), tiles@, cview(cells@), cells@.len() as int, n as nat),
{
    let d = cells.len();
    let ghost cv = cview(cells@);
    let m = n - 2;
    let ghost w: int = d * (m as int);
    let mut img: Vec<Vec<bool>> = Vec::new();
    let mut tr: usize = 0;
    while tr < d
        invariant
            tr <= d,
            d == cells@.len(),
            n >= 2,
            m == n - 2,
            w == d * (m as int),
            forall|k: int| 0 <= k < tiles@.len() ==> tile_wf(#[trigger] tiles@[k], n as nat),
            cells_shape(cv, d as int, tiles@.len() as int),
            cv == cview(cells@),
            img@.len() == tr * m,
            forall|r0: int| 0 <= r0 < img@.len() ==> (#[trigger] gview(img@)[r0]).len() == w,
            forall|r0: int, c0: int|
                0 <= r0 < img@.len() && 0 <= c0 < w
                    ==> #[trigger] gview(img@)[r0][c0] == comp_px(tiles@, cv, n as nat, r0, c0),
        decreases d - tr,
    {
        let mut ir: usize = 0;
        while ir < m
            invariant
                ir <= m,
                tr < d,
                d == cells@.len(),
                n >= 2,
                m == n - 2,
                w == d * (m as int),
                forall|k: int| 0 <= k < tiles@.len() ==> tile_wf(#[trigger] tiles@[k], n as nat),
                cells_shape(cv, d as int, tiles@.len() as int),
                cv == cview(cells@),
                img@.len() == tr * m + ir,
                forall|r0: int| 0 <= r0 < img@.len() ==> (#[trigger] gview(img@)[r0]).len() == w,
                forall|r0: int, c0: int|
                    0 <= r0 < img@.len() && 0 <= c0 < w
                        ==> #[trigger] gview(img@)[r0][c0] == comp_px(tiles@, cv, n as nat, r0, c0),
            decreases m - ir,
        {
            let row = compose_row(tiles, cells, n, tr, ir);
            let ghost prev = img@;
            let ghost r0: int = img@.len() as int;
            img.push(row);
            proof {
                vstd::arithmetic::div_mod::lemma_fundamental_div_mod_converse(
                    r0,
                    m as int,
                    tr as int,
                    ir as int,
                );
                assert(tr * (m as int) + ir < d * (m as int)) by (nonlinear_arith)
                    requires
                        0 <= tr < d,
                        0 <= ir < m,
                ;
                assert(gview(img@)[r0] == row@);
                assert forall|q: int| 0 <= q < img@.len() implies (#[trigger] gview(img@)[q]).len()
                    == w by {
                    if q < r0 {
                        assert(gview(img@)[q] == gview(prev)[q]);
                    }
                }
                assert forall|q: int, c0: int| 0 <= q < img@.len() && 0 <= c0 < w implies #[trigger] gview(
                    img@,
                )[q][c0] == comp_px(tiles@, cv, n as nat, q, c0) by {
                    if q < r0 {
                        assert(gview(img@)[q] == gview(prev)[q]);
                        assert(gview(prev)[q][c0] == comp_px(tiles@, cv, n as nat, q, c0));
                    } else {
                        assert(gview(img@)[q][c0] == row@[c0]);
                        assert(row@[c0] == cell_grid(tiles@, cv, tr as int, c0 / (m as int))[ir
                            + 1][c0 % (m as int) + 1]);
                    }
                }
            }
            ir = ir + 1;
        }
        proof {
            assert(tr * m + m == (tr + 1) * m) by (nonlinear_arith);
        }
        tr = tr + 1;
    }
    img
}


/// The mathematical view of a grid of placed tile indices.
pub open spec fn uview(v: Seq<Vec<usize>>) -> Seq<Seq<usize>> {
    Seq::new(v.len(), |i: int| v[i]@)
}

/// How many tiles of the set have the given adjacency degree, among the
/// first `i`.
pub open spec fn count_degree_eq(
    pairs: Seq<(usize, usize)>,
    tiles: Seq<Tile>,
    i: int,
    dg: nat,
) -> nat
    decreases i,
{
    if i <= 0 {
        0
    } else {
        count_degree_eq(pairs, tiles, i - 1, dg) + (if degree(pairs, tiles[i - 1].id) == dg {
            1nat
        } else {
            0nat
        })
    }
}

/// The degree profile does not fit a d x d grid: a nonempty set must hold
/// exactly four corner tiles (degree two), `4 * (d - 2)` edge tiles
/// (degree three) and `(d - 2) * (d - 2)` interior tiles (degree four).
pub open spec fn bad_profile(pairs: Seq<(usize, usize)>, tiles: Seq<Tile>, d: int) -> bool {
    tiles.len() > 0 && !(count_degree_eq(pairs, tiles, tiles.len() as int, 2) == 4
        && count_degree_eq(pairs, tiles, tiles.len() as int, 3) == 4 * (d - 2)
        && count_degree_eq(pairs, tiles, tiles.len() as int, 4) == (d - 2) * (d - 2))
}

/// A nonnegative integer square root is unique.
pub proof fn lemma_square_root_unique(d1: int, d2: int, cnt: int)
    requires
        0 <= d1,
        0 <= d2,
        is_square_root(d1, cnt),
        is_square_root(d2, cnt),
    ensures
        d1 == d2,
{
    assert(d1 == d2) by (nonlinear_arith)
        requires
            0 <= d1,
            0 <= d2,
            d1 * d1 == d2 * d2,
    ;
}

/// The tile index is already placed, in a full earlier row or in the row
/// being built.
pub open spec fn used_in(rows: Seq<Seq<usize>>, row: Seq<usize>, k: usize) -> bool {
    row.contains(k) || exists|i: int| 0 <= i < rows.len() && (#[trigger] rows[i]).contains(k)
}

/// The number of in-bounds neighbour cells of cell (x, y) in a d x d grid.
pub open spec fn nb_count(x: int, y: int, d: int) -> nat {
    (if y > 0 {
        1nat
    } else {
        0nat
    }) + (if y + 1 < d {
        1nat
    } else {
        0nat
    }) + (if x > 0 {
        1nat
    } else {
        0nat
    }) + (if x + 1 < d {
        1nat
    } else {
        0nat
    })
}

/// The placement constraints on tile `s` at the next cell: unused, degree
/// equal to the cell's neighbour count, and matched with the already
/// placed left and upper neighbours.
pub open spec fn cand_ok(
    ids: Seq<usize>,
    pairs: Seq<(usize, usize)>,
    rows: Seq<Seq<usize>>,
    row: Seq<usize>,
    d: int,
    s: int,
) -> bool {
    let x = rows.len() as int;
    let y = row.len() as int;
    &&& !used_in(rows, row, s as usize)
    &&& degree(pairs, ids[s]) == nb_count(x, y, d)
    &&& (y > 0 ==> pair_in(pairs, ids[s], ids[row[y - 1] as int]))
    &&& (x > 0 ==> pair_in(pairs, ids[s], ids[rows[x - 1][y] as int]))
}

/// The first tile index from `s` on that satisfies the next cell's
/// placement constraints.
pub open spec fn cand_from(
    ids: Seq<usize>,
    pairs: Seq<(usize, usize)>,
    rows: Seq<Seq<usize>>,
    row: Seq<usize>,
    d: int,
    s: int,
) -> Option<int>
    decreases ids.len() - s,
{
    if s < 0 || ids.len() <= s {
        None
    } else if cand_ok(ids, pairs, rows, row, d, s) {
        Some(s)
    } else {
        cand_from(ids, pairs, rows, row, d, s + 1)
    }
}

/// The first tile index from `s` on with adjacency degree two: the corner
/// chosen as the seed.
pub open spec fn seed_from(ids: Seq<usize>, pairs: Seq<(usize, usize)>, s: int) -> Option<int>
    decreases ids.len() - s,
{
    if s < 0 || ids.len() <= s {
        None
    } else if degree(pairs, ids[s]) == 2 {
        Some(s)
    } else {
        seed_from(ids, pairs, s + 1)
    }
}

/// The row-major first-candidate placement of tile indices into a d x d
/// grid, continued from the given full rows and partial row.
pub open spec fn place_from(
    ids: Seq<usize>,
    pairs: Seq<(usize, usize)>,
    d: int,
    rows: Seq<Seq<usize>>,
    row: Seq<usize>,
) -> Option<Seq<Seq<usize>>>
    decreases d - rows.len(), d + 1 - row.len(),
{
    if rows.len() >= d {
        Some(rows)
    } else if row.len() >= d {
        place_from(ids, pairs, d, rows.push(row), Seq::empty())
    } else {
        let c = if rows.len() == 0 && row.len() == 0 {
            seed_from(ids, pairs, 0)
        } else {
            cand_from(ids, pairs, rows, row, d, 0)
        };
        match c {
            Some(k) => place_from(ids, pairs, d, rows, row.push(k as usize)),
            None => None,
        }
    }
}

/// The variant grid of one placed cell.
pub open spec fn cellg(tiles: Seq<Tile>, c: (usize, usize)) -> Seq<Seq<bool>> {
    gsview(tiles[c.0 as int].grids@)[c.1 as int]
}

/// The first variant from `k` on whose left column continues the already
/// oriented left neighbour.
pub open spec fn hvar_from(
    left: Seq<Seq<bool>>,
    vs: Seq<Seq<Seq<bool>>>,
    n: nat,
    k: int,
) -> Option<int>
    decreases vs.len() - k,
{
    if k < 0 || vs.len() <= k {
        None
    } else if hmatch(left, vs[k], n) {
        Some(k)
    } else {
        hvar_from(left, vs, n, k + 1)
    }
}

/// The first variant from `k` on whose top row continues the already
/// oriented upper neighbour.
pub open spec fn vvar_from(
    up: Seq<Seq<bool>>,
    vs: Seq<Seq<Seq<bool>>>,
    n: nat,
    k: int,
) -> Option<int>
    decreases vs.len() - k,
{
    if k < 0 || vs.len() <= k {
        None
    } else if vmatch(up, vs[k], n) {
        Some(k)
    } else {
        vvar_from(up, vs, n, k + 1)
    }
}

/// The row-major orientation of the placed tile indices, anchored at
/// variant `va` for the top-left cell, continued from the given rows.
pub open spec fn orient_from(
    tiles: Seq<Tile>,
    order: Seq<Seq<usize>>,
    d: int,
    n: nat,
    va: int,
    rows: Seq<Seq<(usize, usize)>>,
    row: Seq<(usize, usize)>,
) -> Option<Seq<Seq<(usize, usize)>>>
    decreases d - rows.len(), d + 1 - row.len(),
{
    if rows.len() >= d {
        Some(rows)
    } else if row.len() >= d {
        orient_from(tiles, order, d, n, va, rows.push(row), Seq::empty())
    } else {
        let x = rows.len() as int;
        let y = row.len() as int;
        let ti = order[x][y];
        let vs = gsview(tiles[ti as int].grids@);
        let v: Option<int> = if x == 0 && y == 0 {
            Some(va)
        } else if y > 0 {
            hvar_from(cellg(tiles, row[y - 1]), vs, n, 0)
        } else {
            vvar_from(cellg(tiles, rows[x - 1][y]), vs, n, 0)
        };
        match v {
            Some(k) => orient_from(tiles, order, d, n, va, rows, row.push((ti, k as usize))),
            None => None,
        }
    }
}

/// The first anchor variant whose orientation pass completes and passes
/// the global distinctness and border checks.
pub open spec fn anchors_from(
    tiles: Seq<Tile>,
    order: Seq<Seq<usize>>,
    d: int,
    n: nat,
    va: int,
) -> Option<Seq<Seq<(usize, usize)>>>
    decreases 8 - va,
{
    if va < 0 || 8 <= va {
        None
    } else {
        match orient_from(tiles, order, d, n, va, Seq::empty(), Seq::empty()) {
            Some(cells) => if distinct_cells(cells, d) && borders_ok(tiles, cells, d, n) {
                Some(cells)
            } else {
                anchors_from(tiles, order, d, n, va + 1)
            },
            None => anchors_from(tiles, order, d, n, va + 1),
        }
    }
}

/// The oriented placement that the assembler settles on, when its scans
/// succeed: the first-candidate placement of the tile indices, oriented
/// from the first anchor variant that yields global border agreement.
pub open spec fn spec_assembly(
    ids: Seq<usize>,
    pairs: Seq<(usize, usize)>,
    tiles: Seq<Tile>,
    d: int,
    n: nat,
) -> Option<Seq<Seq<(usize, usize)>>> {
    match place_from(ids, pairs, d, Seq::empty(), Seq::empty()) {
        Some(order) => anchors_from(tiles, order, d, n, 0),
        None => None,
    }
}

proof fn lemma_seed_found(ids: Seq<usize>, pairs: Seq<(usize, usize)>, k: int, i: int)
    requires
        0 <= k <= i < ids.len(),
        degree(pairs, ids[i]) == 2,
        forall|t: int| k <= t < i ==> degree(pairs, #[trigger] ids[t]) != 2,
    ensures
        seed_from(ids, pairs, k) == Some(i),
    decreases i - k,
{
    if k < i {
        lemma_seed_found(ids, pairs, k + 1, i);
    }
}

proof fn lemma_seed_none(ids: Seq<usize>, pairs: Seq<(usize, usize)>, k: int)
    requires
        0 <= k,
        forall|t: int| k <= t < ids.len() ==> degree(pairs, #[trigger] ids[t]) != 2,
    ensures
        seed_from(ids, pairs, k) is None,
    decreases ids.len() - k,
{
    if k < ids.len() {
        lemma_seed_none(ids, pairs, k + 1);
    }
}

proof fn lemma_cand_found(
    ids: Seq<usize>,
    pairs: Seq<(usize, usize)>,
    rows: Seq<Seq<usize>>,
    row: Seq<usize>,
    d: int,
    k: int,
    i: int,
)
    requires
        0 <= k <= i < ids.len(),
        cand_ok(ids, pairs, rows, row, d, i),
        forall|t: int| k <= t < i ==> !cand_ok(ids, pairs, rows, row, d, t),
    ensures
        cand_from(ids, pairs, rows, row, d, k) == Some(i),
    decreases i - k,
{
    if k < i {
        lemma_cand_found(ids, pairs, rows, row, d, k + 1, i);
    }
}

proof fn lemma_cand_none(
    ids: Seq<usize>,
    pairs: Seq<(usize, usize)>,
    rows: Seq<Seq<usize>>,
    row: Seq<usize>,
    d: int,
    k: int,
)
    requires
        0 <= k,
        forall|t: int| k <= t < ids.len() ==> !cand_ok(ids, pairs, rows, row, d, t),
    ensures
        cand_from(ids, pairs, rows, row, d, k) is None,
    decreases ids.len() - k,
{
    if k < ids.len() {
        lemma_cand_none(ids, pairs, rows, row, d, k + 1);
    }
}

proof fn lemma_hvar_found(left: Seq<Seq<bool>>, vs: Seq<Seq<Seq<bool>>>, n: nat, k: int, i: int)
    requires
        0 <= k <= i < vs.len(),
        hmatch(left, vs[i], n),
        forall|t: int| k <= t < i ==> !hmatch(left, #[trigger] vs[t], n),
    ensures
        hvar_from(left, vs, n, k) == Some(i),
    decreases i - k,
{
    if k < i {
        lemma_hvar_found(left, vs, n, k + 1, i);
    }
}

proof fn lemma_hvar_none(left: Seq<Seq<bool>>, vs: Seq<Seq<Seq<bool>>>, n: nat, k: int)
    requires
        0 <= k,
        forall|t: int| k <= t < vs.len() ==> !hmatch(left, #[trigger] vs[t], n),
    ensures
        hvar_from(left, vs, n, k) is None,
    decreases vs.len() - k,
{
    if k < vs.len() {
        lemma_hvar_none(left, vs, n, k + 1);
    }
}

proof fn lemma_vvar_found(up: Seq<Seq<bool>>, vs: Seq<Seq<Seq<bool>>>, n: nat, k: int, i: int)
    requires
        0 <= k <= i < vs.len(),
        vmatch(up, vs[i], n),
        forall|t: int| k <= t < i ==> !vmatch(up, #[trigger] vs[t], n),
    ensures
        vvar_from(up, vs, n, k) == Some(i),
    decreases i - k,
{
    if k < i {
        lemma_vvar_found(up, vs, n, k + 1, i);
    }
}

proof fn lemma_vvar_none(up: Seq<Seq<bool>>, vs: Seq<Seq<Seq<bool>>>, n: nat, k: int)
    requires
        0 <= k,
        forall|t: int| k <= t < vs.len() ==> !vmatch(up, #[trigger] vs[t], n),
    ensures
        vvar_from(up, vs, n, k) is None,
    decreases vs.len() - k,
{
    if k < vs.len() {
        lemma_vvar_none(up, vs, n, k + 1);
    }
}

/// Whether the unordered identifier pair {a, b} is among the matched pairs.
pub open spec fn pair_in(pairs: Seq<(usize, usize)>, a: usize, b: usize) -> bool {
    exists|t: int| 0 <= t < pairs.len() && ((#[trigger] pairs[t]) == (a, b) || pairs[t] == (b, a))
}

/// Decides whether the unordered identifier pair {a, b} was matched.
fn has_pair(pairs: &Vec<(usize, usize)>, a: usize, b: usize) -> (r: bool)
    ensures
        r == pair_in(pairs@, a, b),
{
    let mut t: usize = 0;
    while t < pairs.len()
        invariant
            t <= pairs@.len(),
            forall|s: int|
                0 <= s < t ==> !((#[trigger] pairs@[s]) == (a, b) || pairs@[s] == (b, a)),
        decreases pairs@.len() - t,
    {
        let p = pairs[t];
        if (p.0 == a && p.1 == b) || (p.0 == b && p.1 == a) {
            proof {
                assert(pairs@[t as int] == (a, b) || pairs@[t as int] == (b, a));
            }
            return true;
        }
        t = t + 1;
    }
    false
}

/// Finds the first tile of adjacency degree two, the seed corner.
fn find_seed(degs: &Vec<usize>) -> (r: Option<usize>)
    ensures
        match r {
            Some(i) => i < degs@.len() && degs@[i as int] == 2 && forall|s: int|
                0 <= s < i ==> degs@[s] != 2,
            None => forall|s: int| 0 <= s < degs@.len() ==> degs@[s] != 2,
        },
{
    let mut s: usize = 0;
    while s < degs.len()
        invariant
            s <= degs@.len(),
            forall|t: int| 0 <= t < s ==> degs@[t] != 2,
        decreases degs@.len() - s,
    {
        if degs[s] == 2 {
            return Some(s);
        }
        s = s + 1;
    }
    None
}

/// Finds the first unused tile whose degree equals the number of in-bounds
/// neighbour cells and whose adjacency covers the already placed left and
/// upper neighbour identifiers.
fn find_candidate(
    degs: &Vec<usize>,
    used: &Vec<bool>,
    pairs: &Vec<(usize, usize)>,
    ids: &Vec<usize>,
    nb: usize,
    left: Option<usize>,
    up: Option<usize>,
) -> (r: Option<usize>)
    requires
        degs@.len() == ids@.len(),
        used@.len() == ids@.len(),
    ensures
        match r {
            Some(i) => i < ids@.len() && c_ok(degs@, used@, pairs@, ids@, nb, left, up, i as int)
                && forall|s: int| 0 <= s < i ==> !c_ok(degs@, used@, pairs@, ids@, nb, left, up, s),
            None => forall|s: int|
                0 <= s < ids@.len() ==> !c_ok(degs@, used@, pairs@, ids@, nb, left, up, s),
        },
{
    let mut s: usize = 0;
    while s < ids.len()
        invariant
            s <= ids@.len(),
            degs@.len() == ids@.len(),
            used@.len() == ids@.len(),
            forall|t: int| 0 <= t < s ==> !c_ok(degs@, used@, pairs@, ids@, nb, left, up, t),
        decreases ids@.len() - s,
    {
        if !used[s] && degs[s] == nb {
            let left_ok = match left {
                Some(l) => has_pair(pairs, ids[s], l),
                None => true,
            };
            let up_ok = match up {
                Some(u) => has_pair(pairs, ids[s], u),
                None => true,
            };
            if left_ok && up_ok {
                return Some(s);
            }
        }
        s = s + 1;
    }
    None
}

/// The constraints that the candidate search tests on tile `s`, over the
/// precomputed degrees and used flags.
pub open spec fn c_ok(
    degs: Seq<usize>,
    used: Seq<bool>,
    pairs: Seq<(usize, usize)>,
    ids: Seq<usize>,
    nb: usize,
    left: Option<usize>,
    up: Option<usize>,
    s: int,
) -> bool {
    &&& !used[s]
    &&& degs[s] == nb
    &&& (left matches Some(l) ==> pair_in(pairs, ids[s], l))
    &&& (up matches Some(u) ==> pair_in(pairs, ids[s], u))
}

/// Reconstructs the composite image from the matched pairs: places the tile
/// identifiers into a square grid consistent with the adjacency degrees and
/// matched pairs, chooses the variant of each placed tile whose borders
/// agree with its already oriented neighbours, confirms the border
/// agreement globally, and cuts out the interior pixels.
///
/// Failures: `MalformedInstance` exactly when the tile count is no square,
/// some degree is impossible, or the degree profile does not fit the grid;
/// `Unplaceable` exactly when the row-major scan of `spec_assembly` finds
/// no placement or no agreeing orientation.  On success the image is the
/// composite of exactly the placement `spec_assembly` names.
#[verifier::loop_isolation(false)]
pub fn reconstruct_image(
    ids: &Vec<usize>,
    pairs: &Vec<(usize, usize)>,
    tiles: &Vec<Tile>,
) -> (res: Result<Vec<Vec<bool>>, PuzzleError>)
    requires
        ids@.len() == tiles@.len(),
        forall|k: int| 0 <= k < tiles@.len() ==> #[trigger] ids@[k] == tiles@[k].id,
        tiles@.len() > 0 ==> tiles_wf(tiles@) && tile_side(tiles@) >= 2,
    ensures
        (res == Err::<Vec<Vec<bool>>, PuzzleError>(PuzzleError::MalformedInstance)) <==> (
        no_square_dim(tiles@.len() as int) || bad_degree(pairs@, tiles@) || exists|d: int|
            0 <= d && #[trigger] is_square_root(d, tiles@.len() as int) && bad_profile(
                pairs@,
                tiles@,
                d,
            )),
        res matches Err(e) ==> e == PuzzleError::MalformedInstance || e
            == PuzzleError::Unplaceable,
        forall|d: int|
            0 <= d && #[trigger] is_square_root(d, tiles@.len() as int) && !bad_degree(
                pairs@,
                tiles@,
            ) && !bad_profile(pairs@, tiles@, d) ==> ((res == Err::<
                Vec<Vec<bool>>,
                PuzzleError,
            >(PuzzleError::Unplaceable)) <==> spec_assembly(
                ids@,
                pairs@,
                tiles@,
                d,
                tile_side(tiles@),
            ) is None),
        res matches Ok(img) ==> forall|d: int|
            0 <= d && #[trigger] is_square_root(d, tiles@.len() as int) ==> (spec_assembly(
                ids@,
                pairs@,
                tiles@,
                d,
                tile_side(tiles@),
            ) matches Some(cells) && assembly_ok(tiles@, cells, d, tile_side(tiles@))
                && composite_rel(gview(img@), tiles@, cells, d, tile_side(tiles@)) && (d >= 1
                ==> degree(pairs@, tiles@[cells[0][0].0 as int].id) == 2)),
        res matches Ok(img) ==> exists|d: int|
            0 <= d && #[trigger] is_square_root(d, tiles@.len() as int),
{
    let count = tiles.len();
    let d = match grid_dim(count) {
        Some(v) => v,
        None => {
            return Err(PuzzleError::MalformedInstance);
        },
    };
    // adjacency degrees per tile index, each must be 2, 3 or 4; the number
    // of tiles of each degree is tallied for the profile check
    let mut degs: Vec<usize> = Vec::new();
    let mut c2: usize = 0;
    let mut c3: usize = 0;
    let mut c4: usize = 0;
    let mut k: usize = 0;
    while k < count
        invariant
            k <= count,
            degs@.len() == k,
            forall|t: int|
                0 <= t < k ==> (#[trigger] degs@[t]) as nat == degree(pairs@, tiles@[t].id)
                    && 2 <= degs@[t] <= 4,
            c2 <= k && c3 <= k && c4 <= k,
            c2 as nat == count_degree_eq(pairs@, tiles@, k as int, 2),
            c3 as nat == count_degree_eq(pairs@, tiles@, k as int, 3),
            c4 as nat == count_degree_eq(pairs@, tiles@, k as int, 4),
        decreases count - k,
    {
        let dg = crate::matching::count_degree(pairs, ids[k]);
        if dg < 2 || dg > 4 {
            proof {
                assert(!(2 <= degree(pairs@, tiles@[k as int].id) <= 4));
                assert(bad_degree(pairs@, tiles@));
            }
            return Err(PuzzleError::MalformedInstance);
        }
        if dg == 2 {
            c2 = c2 + 1;
        } else if dg == 3 {
            c3 = c3 + 1;
        } else {
            c4 = c4 + 1;
        }
        degs.push(dg);
        k = k + 1;
    }
    proof {
        assert(!no_square_dim(count as int));
        if bad_degree(pairs@, tiles@) {
            let b = choose|b: int|
                0 <= b < tiles@.len() && !(2 <= degree(pairs@, (#[trigger] tiles@[b]).id) <= 4);
            assert((degs@[b]) as nat == degree(pairs@, tiles@[b].id));
            assert(false);
        }
    }
    let ghost side = tile_side(tiles@);
    if count == 0 {
        let img: Vec<Vec<bool>> = Vec::new();
        proof {
            let cells0 = Seq::<Seq<(usize, usize)>>::empty();
            assert(is_square_root(0, 0));
            assert(assembly_ok(tiles@, cells0, 0, side));
            assert(composite_rel(gview(img@), tiles@, cells0, 0, side));
            assert(place_from(ids@, pairs@, 0, Seq::empty(), Seq::empty()) == Some(
                Seq::<Seq<usize>>::empty(),
            ));
            assert(orient_from(tiles@, cells0_order(), 0, side, 0, Seq::empty(), Seq::empty())
                == Some(cells0));
            assert(distinct_cells(cells0, 0) && borders_ok(tiles@, cells0, 0, side));
            assert(anchors_from(tiles@, cells0_order(), 0, side, 0) == Some(cells0));
            assert(spec_assembly(ids@, pairs@, tiles@, 0, side) == Some(cells0));
            assert forall|e: int| 0 <= e && is_square_root(e, 0) implies e == 0 by {
                lemma_square_root_unique(e, 0, 0);
            }
        }
        return Ok(img);
    }
    let n = tiles[0].grids[0].len();
    proof {
        assert(tile_wf(tiles@[0], side));
        assert(n == side);
    }
    // the degree profile must fit the d x d grid: exactly four corners,
    // 4*(d-2) edge tiles and (d-2)*(d-2) interior tiles
    proof {
        assert forall|e: int| 0 <= e && is_square_root(e, count as int) implies e == d by {
            lemma_square_root_unique(e, d as int, count as int);
        }
    }
    if d < 2 {
        proof {
            assert(bad_profile(pairs@, tiles@, d as int));
        }
        return Err(PuzzleError::MalformedInstance);
    }
    proof {
        let m = (d - 2) as int;
        assert(m * m < 0x1_0000_0000_0000_0000_0000_0000_0000_0000) by (nonlinear_arith)
            requires
                0 <= m < 0x1_0000_0000_0000_0000,
        ;
    }
    let exp3: u128 = 4u128 * ((d - 2) as u128);
    let exp4: u128 = ((d - 2) as u128) * ((d - 2) as u128);
    if !(c2 == 4 && (c3 as u128) == exp3 && (c4 as u128) == exp4) {
        proof {
            assert(bad_profile(pairs@, tiles@, d as int));
        }
        return Err(PuzzleError::MalformedInstance);
    }
    proof {
        assert(!bad_profile(pairs@, tiles@, d as int));
        assert forall|e: int|
            0 <= e && #[trigger] is_square_root(e, count as int) implies !bad_profile(
            pairs@,
            tiles@,
            e,
        ) by {
            lemma_square_root_unique(e, d as int, count as int);
        }
    }
    // first pass: place tile indices so that degrees and matched pairs fit,
    // mirroring `place_from` cell by cell
    let ghost ptotal = place_from(ids@, pairs@, d as int, Seq::empty(), Seq::empty());
    let mut used: Vec<bool> = Vec::new();
    let mut s: usize = 0;
    while s < count
        invariant
            s <= count,
            used@.len() == s,
            forall|t: int| 0 <= t < s ==> !(#[trigger] used@[t]),
        decreases count - s,
    {
        used.push(false);
        s = s + 1;
    }
    let mut grid_idx: Vec<Vec<usize>> = Vec::new();
    proof {
        assert(uview(grid_idx@) =~= Seq::<Seq<usize>>::empty());
        assert forall|t: int| 0 <= t < count implies (used@[t] <==> used_in(
            uview(grid_idx@),
            Seq::empty(),
            t as usize,
        )) by {
            assert(!Seq::<usize>::empty().contains(t as usize));
        }
    }
    let mut x: usize = 0;
    while x < d
        invariant
            x <= d,
            used@.len() == count,
            grid_idx@.len() == x,
            forall|r: int| 0 <= r < x ==> (#[trigger] grid_idx@[r])@.len() == d,
            forall|r: int, c: int|
                0 <= r < x && 0 <= c < d ==> (#[trigger] grid_idx@[r]@[c]) < count,
            forall|t: int|
                0 <= t < count ==> (#[trigger] used@[t] <==> used_in(
                    uview(grid_idx@),
                    Seq::empty(),
                    t as usize,
                )),
            place_from(ids@, pairs@, d as int, uview(grid_idx@), Seq::empty()) == ptotal,
            x > 0 ==> degree(pairs@, ids@[uview(grid_idx@)[0][0] as int]) == 2,
        decreases d - x,
    {
        let mut rowi: Vec<usize> = Vec::new();
        proof {
            assert(rowi@ =~= Seq::<usize>::empty());
        }
        let mut y: usize = 0;
        while y < d
            invariant
                x < d,
                y <= d,
                used@.len() == count,
                grid_idx@.len() == x,
                forall|r: int| 0 <= r < x ==> (#[trigger] grid_idx@[r])@.len() == d,
                forall|r: int, c: int|
                    0 <= r < x && 0 <= c < d ==> (#[trigger] grid_idx@[r]@[c]) < count,
                rowi@.len() == y,
                forall|c: int| 0 <= c < y ==> (#[trigger] rowi@[c]) < count,
                forall|t: int|
                    0 <= t < count ==> (#[trigger] used@[t] <==> used_in(
                        uview(grid_idx@),
                        rowi@,
                        t as usize,
                    )),
                place_from(ids@, pairs@, d as int, uview(grid_idx@), rowi@) == ptotal,
                x > 0 ==> degree(pairs@, ids@[uview(grid_idx@)[0][0] as int]) == 2,
                x == 0 && y > 0 ==> degree(pairs@, ids@[rowi@[0] as int]) == 2,
            decreases d - y,
        {
            let ghost rows0 = uview(grid_idx@);
            let ghost row0 = rowi@;
            let ti: usize;
            if x == 0 && y == 0 {
                ti = match find_seed(&degs) {
                    Some(v) => v,
                    None => {
                        proof {
                            assert forall|t: int| 0 <= t < ids@.len() implies degree(
                                pairs@,
                                #[trigger] ids@[t],
                            ) != 2 by {
                                assert((degs@[t]) as nat == degree(pairs@, tiles@[t].id));
                            }
                            lemma_seed_none(ids@, pairs@, 0);
                            assert(place_from(ids@, pairs@, d as int, rows0, row0) is None);
                        }
                        return Err(PuzzleError::Unplaceable);
                    },
                };
                proof {
                    assert forall|t: int| 0 <= t < ti implies degree(
                        pairs@,
                        #[trigger] ids@[t],
                    ) != 2 by {
                        assert((degs@[t]) as nat == degree(pairs@, tiles@[t].id));
                    }
                    lemma_seed_found(ids@, pairs@, 0, ti as int);
                    assert(seed_from(ids@, pairs@, 0) == Some(ti as int));
                }
            } else {
                let mut nb: usize = 0;
                if y > 0 {
                    nb = nb + 1;
                }
                if y + 1 < d {
                    nb = nb + 1;
                }
                if x > 0 {
                    nb = nb + 1;
                }
                if x + 1 < d {
                    nb = nb + 1;
                }
                proof {
                    assert(nb as nat == nb_count(x as int, y as int, d as int));
                }
                let left: Option<usize> = if y > 0 {
                    Some(ids[rowi[y - 1]])
                } else {
                    None
                };
                let up: Option<usize> = if x > 0 {
                    proof {
                        assert(uview(grid_idx@)[x - 1] == grid_idx@[x - 1]@);
                    }
                    Some(ids[grid_idx[x - 1][y]])
                } else {
                    None
                };
                proof {
                    assert forall|t: int| 0 <= t < count implies (c_ok(
                        degs@,
                        used@,
                        pairs@,
                        ids@,
                        nb,
                        left,
                        up,
                        t,
                    ) <==> cand_ok(ids@, pairs@, rows0, row0, d as int, t)) by {
                        assert((degs@[t]) as nat == degree(pairs@, tiles@[t].id));
                        if y > 0 {
                            assert(left == Some(ids@[row0[y - 1] as int]));
                        }
                        if x > 0 {
                            assert(rows0[x - 1] == grid_idx@[x - 1]@);
                            assert(up == Some(ids@[rows0[x - 1][y as int] as int]));
                        }
                    }
                }
                ti = match find_candidate(&degs, &used, pairs, ids, nb, left, up) {
                    Some(v) => v,
                    None => {
                        proof {
                            lemma_cand_none(ids@, pairs@, rows0, row0, d as int, 0);
                            assert(place_from(ids@, pairs@, d as int, rows0, row0) is None);
                        }
                        return Err(PuzzleError::Unplaceable);
                    },
                };
                proof {
                    lemma_cand_found(ids@, pairs@, rows0, row0, d as int, 0, ti as int);
                    assert(cand_from(ids@, pairs@, rows0, row0, d as int, 0) == Some(ti as int));
                }
            }
            used[ti] = true;
            rowi.push(ti);
            proof {
                assert(rowi@ == row0.push(ti));
                assert(place_from(ids@, pairs@, d as int, rows0, row0) == place_from(
                    ids@,
                    pairs@,
                    d as int,
                    rows0,
                    row0.push(ti),
                ));
                assert forall|t: int| 0 <= t < count implies (#[trigger] used@[t] <==> used_in(
                    rows0,
                    rowi@,
                    t as usize,
                )) by {
                    if t == ti {
                        assert(rowi@[y as int] == ti);
                        assert(rowi@.contains(ti));
                    } else {
                        if rowi@.contains(t as usize) {
                            let ix = choose|ix: int|
                                0 <= ix < rowi@.len() && rowi@[ix] == t as usize;
                            assert(row0[ix] == t as usize);
                            assert(row0.contains(t as usize));
                        }
                        if row0.contains(t as usize) {
                            let ix = choose|ix: int|
                                0 <= ix < row0.len() && row0[ix] == t as usize;
                            assert(rowi@[ix] == t as usize);
                        }
                    }
                }
            }
            y = y + 1;
        }
        let ghost prows = uview(grid_idx@);
        let ghost prow = rowi@;
        grid_idx.push(rowi);
        x = x + 1;
        proof {
            let rows1 = uview(grid_idx@);
            assert(rows1 =~= prows.push(prow));
            assert(place_from(ids@, pairs@, d as int, prows, prow) == place_from(
                ids@,
                pairs@,
                d as int,
                prows.push(prow),
                Seq::empty(),
            ));
            assert forall|t: int| 0 <= t < count implies (#[trigger] used@[t] <==> used_in(
                rows1,
                Seq::empty(),
                t as usize,
            )) by {
                if used_in(prows, prow, t as usize) {
                    if prow.contains(t as usize) {
                        assert(rows1[x - 1].contains(t as usize));
                    } else {
                        let ix = choose|ix: int|
                            0 <= ix < prows.len() && (#[trigger] prows[ix]).contains(t as usize);
                        assert(rows1[ix].contains(t as usize));
                    }
                }
                if used_in(rows1, Seq::empty(), t as usize) {
                    let ix = choose|ix: int|
                        0 <= ix < rows1.len() && (#[trigger] rows1[ix]).contains(t as usize);
                    if ix < x - 1 {
                        assert(prows[ix].contains(t as usize));
                    } else {
                        assert(prow.contains(t as usize));
                    }
                }
            }
            assert(uview(grid_idx@)[0] == grid_idx@[0]@);
            if x == 1 {
                assert(rows1[0] == prow);
            }
        }
    }
    let ghost order = uview(grid_idx@);
    proof {
        assert(place_from(ids@, pairs@, d as int, order, Seq::empty()) == Some(order));
        assert(ptotal == Some(order));
        assert(degree(pairs@, ids@[order[0][0] as int]) == 2);
    }
    // second pass: orient each placed tile against its left or upper
    // neighbour.  The anchor orientation of the top-left tile is free, so
    // each of its eight variants is tried until the whole grid agrees.
    let mut va: usize = 0;
    while va < 8
        invariant
            va <= 8,
            anchors_from(tiles@, order, d as int, n as nat, va as int) == anchors_from(
                tiles@,
                order,
                d as int,
                n as nat,
                0,
            ),
        decreases 8 - va,
    {
        if let Some(cells) = orient_placement(tiles, &grid_idx, n, va) {
            let ok1 = check_distinct(&cells, count);
            let ok2 = check_borders(tiles, &cells, n);
            proof {
                assert(cview(cells@).len() == d);
            }
            if ok1 && ok2 {
                let img = compose(tiles, &cells, n);
                proof {
                    let cv = cview(cells@);
                    assert(anchors_from(tiles@, order, d as int, n as nat, va as int) == Some(cv));
                    assert(spec_assembly(ids@, pairs@, tiles@, d as int, side) == Some(cv));
                    assert(assembly_ok(tiles@, cv, d as int, n as nat));
                    assert(is_square_root(d as int, count as int));
                    assert(composite_rel(gview(img@), tiles@, cv, d as int, side));
                    assert(cv[0][0].0 == order[0][0]);
                    assert(degree(pairs@, tiles@[cv[0][0].0 as int].id) == 2);
                }
                return Ok(img);
            } else {
                proof {
                    assert(anchors_from(tiles@, order, d as int, n as nat, va as int)
                        == anchors_from(tiles@, order, d as int, n as nat, va + 1));
                }
            }
        } else {
            proof {
                assert(anchors_from(tiles@, order, d as int, n as nat, va as int) == anchors_from(
                    tiles@,
                    order,
                    d as int,
                    n as nat,
                    va + 1,
                ));
            }
        }
        va = va + 1;
    }
    proof {
        assert(anchors_from(tiles@, order, d as int, n as nat, 8) is None);
        assert(spec_assembly(ids@, pairs@, tiles@, d as int, side) is None);
    }
    Err(PuzzleError::Unplaceable)
}

/// The empty grid of placed tile indices.
pub open spec fn cells0_order() -> Seq<Seq<usize>> {
    Seq::empty()
}

/// Chooses a variant for every placed tile: the top-left cell takes the
/// given anchor variant, every later cell the first variant whose border
/// agrees with its already oriented left neighbour, or, in the first
/// column, its upper neighbour.  Reports nothing when some cell admits no
/// such variant; the outcome mirrors `orient_from` exactly.
#[verifier::loop_isolation(false)]
fn orient_placement(
    tiles: &Vec<Tile>,
    grid_idx: &Vec<Vec<usize>>,
    n: usize,
    va: usize,
) -> (res: Option<Vec<Vec<(usize, usize)>>>)
    requires
        va < 8,
        n >= 2,
        tiles@.len() > 0,
        n == tile_side(tiles@),
        tiles_wf(tiles@),
        forall|r: int|
            0 <= r < grid_idx@.len() ==> (#[trigger] grid_idx@[r])@.len() == grid_idx@.len(),
        forall|r: int, c: int|
            0 <= r < grid_idx@.len() && 0 <= c < grid_idx@.len()
                ==> (#[trigger] grid_idx@[r]@[c]) < tiles@.len(),
    ensures
        match res {
            Some(cells) => cells_shape(cview(cells@), grid_idx@.len() as int, tiles@.len() as int)
                && orient_from(
                tiles@,
                uview(grid_idx@),
                grid_idx@.len() as int,
                n as nat,
                va as int,
                Seq::empty(),
                Seq::empty(),
            ) == Some(cview(cells@)) && (grid_idx@.len() > 0 ==> cview(cells@)[0][0].0 == uview(
                grid_idx@,
            )[0][0]),
            None => orient_from(
                tiles@,
                uview(grid_idx@),
                grid_idx@.len() as int,
                n as nat,
                va as int,
                Seq::empty(),
                Seq::empty(),
            ) is None,
        },
{
    let d = grid_idx.len();
    let count = tiles.len();
    let ghost ord = uview(grid_idx@);
    let ghost ototal = orient_from(tiles@, ord, d as int, n as nat, va as int, Seq::empty(), Seq::empty());
    let mut cells: Vec<Vec<(usize, usize)>> = Vec::new();
    proof {
        assert(cview(cells@) =~= Seq::<Seq<(usize, usize)>>::empty());
    }
    let mut x2: usize = 0;
    while x2 < d
        invariant
            x2 <= d,
            cells@.len() == x2,
            forall|r: int| 0 <= r < x2 ==> (#[trigger] cells@[r])@.len() == d,
            forall|r: int, c: int|
                0 <= r < x2 && 0 <= c < d ==> (#[trigger] cells@[r]@[c]).0 < count
                    && cells@[r]@[c].1 < 8,
            orient_from(tiles@, ord, d as int, n as nat, va as int, cview(cells@), Seq::empty())
                == ototal,
            x2 > 0 ==> cview(cells@)[0][0].0 == ord[0][0],
        decreases d - x2,
    {
        let mut crow: Vec<(usize, usize)> = Vec::new();
        proof {
            assert(crow@ =~= Seq::<(usize, usize)>::empty());
        }
        let mut y2: usize = 0;
        while y2 < d
            invariant
                x2 < d,
                y2 <= d,
                cells@.len() == x2,
                forall|r: int| 0 <= r < x2 ==> (#[trigger] cells@[r])@.len() == d,
                forall|r: int, c: int|
                    0 <= r < x2 && 0 <= c < d ==> (#[trigger] cells@[r]@[c]).0 < count
                        && cells@[r]@[c].1 < 8,
                crow@.len() == y2,
                forall|c: int|
                    0 <= c < y2 ==> (#[trigger] crow@[c]).0 < count && crow@[c].1 < 8,
                orient_from(tiles@, ord, d as int, n as nat, va as int, cview(cells@), crow@)
                    == ototal,
                x2 > 0 ==> cview(cells@)[0][0].0 == ord[0][0],
                x2 == 0 && y2 > 0 ==> crow@[0].0 == ord[0][0],
            decreases d - y2,
        {
            let ghost rows0 = cview(cells@);
            let ghost row0 = crow@;
            proof {
                assert(ord[x2 as int] == grid_idx@[x2 as int]@);
            }
            let ti = grid_idx[x2][y2];
            let ghost vs = gsview(tiles@[ti as int].grids@);
            proof {
                assert(tile_wf(tiles@[ti as int], n as nat));
                assert(vs.len() == 8);
            }
            let vi: usize;
            if x2 == 0 && y2 == 0 {
                vi = va;
            } else if y2 > 0 {
                let prev = crow[y2 - 1];
                proof {
                    assert(tile_wf(tiles@[prev.0 as int], n as nat));
                    assert(gsview(tiles@[prev.0 as int].grids@)[prev.1 as int] == gview(
                        tiles@[prev.0 as int].grids@[prev.1 as int]@,
                    ));
                    assert(cellg(tiles@, prev) == gview(
                        tiles@[prev.0 as int].grids@[prev.1 as int]@,
                    ));
                }
                let left_grid = &tiles[prev.0].grids[prev.1];
                vi = match tile_by_right(left_grid, &tiles[ti].grids) {
                    Some(v) => {
                        proof {
                            assert forall|t: int|
                                0 <= t < v implies !hmatch(
                                cellg(tiles@, prev),
                                #[trigger] vs[t],
                                n as nat,
                            ) by {}
                            lemma_hvar_found(cellg(tiles@, prev), vs, n as nat, 0, v as int);
                        }
                        v
                    },
                    None => {
                        proof {
                            lemma_hvar_none(cellg(tiles@, prev), vs, n as nat, 0);
                            assert(orient_from(
                                tiles@,
                                ord,
                                d as int,
                                n as nat,
                                va as int,
                                rows0,
                                row0,
                            ) is None);
                        }
                        return None;
                    },
                };
            } else {
                proof {
                    assert(cview(cells@)[x2 - 1] == cells@[x2 - 1]@);
                }
                let above = lookup_cell(&cells, x2 - 1, y2);
                proof {
                    assert(rows0[x2 - 1][y2 as int] == above);
                    assert(tile_wf(tiles@[above.0 as int], n as nat));
                    assert(gsview(tiles@[above.0 as int].grids@)[above.1 as int] == gview(
                        tiles@[above.0 as int].grids@[above.1 as int]@,
                    ));
                    assert(cellg(tiles@, above) == gview(
                        tiles@[above.0 as int].grids@[above.1 as int]@,
                    ));
                }
                let up_grid = &tiles[above.0].grids[above.1];
                vi = match tile_by_down(up_grid, &tiles[ti].grids) {
                    Some(v) => {
                        proof {
                            lemma_vvar_found(cellg(tiles@, above), vs, n as nat, 0, v as int);
                        }
                        v
                    },
                    None => {
                        proof {
                            lemma_vvar_none(cellg(tiles@, above), vs, n as nat, 0);
                            assert(orient_from(
                                tiles@,
                                ord,
                                d as int,
                                n as nat,
                                va as int,
                                rows0,
                                row0,
                            ) is None);
                        }
                        return None;
                    },
                };
            }
            crow.push((ti, vi));
            proof {
                assert(crow@ == row0.push((ti, vi)));
                assert(orient_from(tiles@, ord, d as int, n as nat, va as int, rows0, row0)
                    == orient_from(
                    tiles@,
                    ord,
                    d as int,
                    n as nat,
                    va as int,
                    rows0,
                    row0.push((ti, vi)),
                ));
            }
            y2 = y2 + 1;
        }
        let ghost prows = cview(cells@);
        let ghost prow = crow@;
        cells.push(crow);
        x2 = x2 + 1;
        proof {
            let rows1 = cview(cells@);
            assert(rows1 =~= prows.push(prow));
            assert(orient_from(tiles@, ord, d as int, n as nat, va as int, prows, prow)
                == orient_from(
                tiles@,
                ord,
                d as int,
                n as nat,
                va as int,
                prows.push(prow),
                Seq::empty(),
            ));
            assert(cview(cells@)[0] == cells@[0]@);
            if x2 == 1 {
                assert(rows1[0] == prow);
            }
        }
    }
    proof {
        assert(orient_from(
            tiles@,
            ord,
            d as int,
            n as nat,
            va as int,
            cview(cells@),
            Seq::empty(),
        ) == Some(cview(cells@)));
        assert forall|r: int| 0 <= r < d implies (#[trigger] cview(cells@)[r]).len() == d by {
            assert(cview(cells@)[r] == cells@[r]@);
        }
        assert forall|r: int, c: int| 0 <= r < d && 0 <= c < d implies (#[trigger] cview(
            cells@,
        )[r][c]).0 < count && cview(cells@)[r][c].1 < 8 by {
            assert(cview(cells@)[r] == cells@[r]@);
        }
        assert(cells_shape(cview(cells@), d as int, count as int));
    }
    Some(cells)
}

/// Reads one cell of the placement grid.
fn lookup_cell(cells: &Vec<Vec<(usize, usize)>>, x: usize, y: usize) -> (r: (usize, usize))
    requires
        x < cells@.len(),
        y < cells@[x as int]@.len(),
    ensures
        r == cells@[x as int]@[y as int],
{
    let e = &cells[x][y];
    (e.0, e.1)
}

} // verus!
