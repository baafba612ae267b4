//! Square pixel grids and their eight symmetry variants.
//!
//! A pixel grid is a vector of rows, each row a vector of booleans.
//! The eight variants of a grid are the four quarter-turn rotations and
//! the upside-down mirror of each rotation, in that fixed order.

use vstd::prelude::*;

verus! {

/// The mathematical view of a pixel grid: each row as a sequence.
pub open spec fn gview(v: Seq<Vec<bool>>) -> Seq<Seq<bool>> {
    Seq::new(v.len(), |i: int| v[i]@)
}

/// The view of a list of pixel grids.
pub open spec fn gsview(v: Seq<Vec<Vec<bool>>>) -> Seq<Seq<Seq<bool>>> {
    Seq::new(v.len(), |i: int| gview(v[i]@))
}

/// A grid is well formed when it is square with side `n`.
pub open spec fn grid_wf(g: Seq<Seq<bool>>, n: nat) -> bool {
    g.len() == n && forall|i: int| 0 <= i < n ==> (#[trigger] g[i]).len() == n
}

/// A quarter turn counter-clockwise: the pixel at row `r`, column `c` of
/// the result is the pixel at row `c`, column `n-1-r` of the input.
pub open spec fn spec_rotate_left(g: Seq<Seq<bool>>, n: nat) -> Seq<Seq<bool>> {
    Seq::new(n, |r: int| Seq::new(n, |c: int| g[c][n - 1 - r]))
}

/// The upside-down mirror: row `r` of the result is row `n-1-r` of the input.
pub open spec fn spec_flip(g: Seq<Seq<bool>>, n: nat) -> Seq<Seq<bool>> {
    Seq::new(n, |r: int| g[n - 1 - r])
}

/// The eight symmetry variants of a grid, in the fixed order: identity,
/// three successive rotations, then the mirror of each of those four.
pub open spec fn spec_variants(g: Seq<Seq<bool>>, n: nat) -> Seq<Seq<Seq<bool>>> {
    let r1 = spec_rotate_left(g, n);
    let r2 = spec_rotate_left(r1, n);
    let r3 = spec_rotate_left(r2, n);
    seq![
        g,
        r1,
        r2,
        r3,
        spec_flip(g, n),
        spec_flip(r1, n),
        spec_flip(r2, n),
        spec_flip(r3, n),
    ]
}

/// Rotates a square grid a quarter turn counter-clockwise.
pub fn rotate_left(tile: &Vec<Vec<bool>>, dimension: usize) -> (r: Vec<Vec<bool>>)
    requires
        grid_wf(gview(tile@), dimension as nat),
    ensures
        gview(r@) == spec_rotate_left(gview(tile@), dimension as nat),
        grid_wf(gview(r@), dimension as nat),
{
    let n = dimension;
    let mut out: Vec<Vec<bool>> = Vec::new();
    let mut i: usize = 0;
    while i < n
        invariant
            i <= n,
            grid_wf(gview(tile@), n as nat),
            out@.len() == i,
            forall|a: int, b: int|
                0 <= a < i && 0 <= b < n ==> #[trigger] out@[a]@[b] == gview(tile@)[b][n - 1 - a],
            forall|a: int| 0 <= a < i ==> (#[trigger] out@[a])@.len() == n,
        decreases n - i,
    {
        let mut row: Vec<bool> = Vec::new();
        let mut j: usize = 0;
        while j < n
            invariant
                j <= n,
                i < n,
                grid_wf(gview(tile@), n as nat),
                row@.len() == j,
                forall|b: int| 0 <= b < j ==> #[trigger] row@[b] == gview(tile@)[b][n - 1 - i],
            decreases n - j,
        {
            proof {
                assert(gview(tile@)[j as int].len() == n);
                assert(tile@[j as int]@.len() == n);
            }
            let px = tile[j][n - 1 - i];
            assert(px == gview(tile@)[j as int][n - 1 - i]);
            row.push(px);
            j = j + 1;
        }
        out.push(row);
        i = i + 1;
    }
    proof {
        let gv = gview(out@);
        let sp = spec_rotate_left(gview(tile@), n as nat);
        assert forall|a: int| 0 <= a < n implies gv[a] == sp[a] by {
            assert(gv[a] =~= sp[a]);
        }
        assert(gv =~= sp);
    }
    out
}

/// Mirrors a grid upside down: the first row becomes the last.
pub fn flip_upside_down(tile: &Vec<Vec<bool>>, dimension: usize) -> (r: Vec<Vec<bool>>)
    requires
        tile@.len() == dimension,
    ensures
        gview(r@) == spec_flip(gview(tile@), dimension as nat),
        r@.len() == dimension,
{
    let n = dimension;
    let mut out: Vec<Vec<bool>> = Vec::new();
    let mut i: usize = 0;
    while i < n
        invariant
            i <= n,
            tile@.len() == n,
            out@.len() == i,
            forall|a: int| 0 <= a < i ==> #[trigger] out@[a]@ == gview(tile@)[n - 1 - a],
        decreases n - i,
    {
        let row = copy_row(&tile[n - 1 - i]);
        out.push(row);
        i = i + 1;
    }
    proof {
        let gv = gview(out@);
        let sp = spec_flip(gview(tile@), n as nat);
        assert forall|a: int| 0 <= a < n implies gv[a] == sp[a] by {}
        assert(gv =~= sp);
    }
    out
}

/// Copies one row of pixels.
pub fn copy_row(row: &Vec<bool>) -> (r: Vec<bool>)
    ensures
        r@ == row@,
{
    let mut out: Vec<bool> = Vec::new();
    let mut j: usize = 0;
    while j < row.len()
        invariant
            j <= row@.len(),
            out@.len() == j,
            forall|b: int| 0 <= b < j ==> #[trigger] out@[b] == row@[b],
        decreases row@.len() - j,
    {
        out.push(row[j]);
        j = j + 1;
    }
    proof {
        assert(out@ =~= row@);
    }
    out
}

/// Copies a pixel grid.
pub fn copy_grid(img: &Vec<Vec<bool>>) -> (r: Vec<Vec<bool>>)
    ensures
        gview(r@) == gview(img@),
        r@.len() == img@.len(),
{
    let mut out: Vec<Vec<bool>> = Vec::new();
    let mut i: usize = 0;
    while i < img.len()
        invariant
            i <= img@.len(),
            out@.len() == i,
            forall|a: int| 0 <= a < i ==> #[trigger] out@[a]@ == img@[a]@,
        decreases img@.len() - i,
    {
        let row = copy_row(&img[i]);
        out.push(row);
        i = i + 1;
    }
    proof {
        assert(gview(out@) =~= gview(img@));
    }
    out
}

/// Produces the eight symmetry variants of a square grid, in the fixed
/// order given by `spec_variants`.
pub fn obtain_transformations(tile: Vec<Vec<bool>>) -> (r: Vec<Vec<Vec<bool>>>)
    requires
        grid_wf(gview(tile@), tile@.len() as nat),
    ensures
        gsview(r@) == spec_variants(gview(tile@), tile@.len() as nat),
        r@.len() == 8,
{
    let n = tile.len();
    let rot1 = rotate_left(&tile, n);
    let rot2 = rotate_left(&rot1, n);
    let rot3 = rotate_left(&rot2, n);
    let flip0 = flip_upside_down(&tile, n);
    let flip1 = flip_upside_down(&rot1, n);
    let flip2 = flip_upside_down(&rot2, n);
    let flip3 = flip_upside_down(&rot3, n);
    let ghost g = gview(tile@);
    let mut out: Vec<Vec<Vec<bool>>> = Vec::new();
    out.push(tile);
    out.push(rot1);
    out.push(rot2);
    out.push(rot3);
    out.push(flip0);
    out.push(flip1);
    out.push(flip2);
    out.push(flip3);
    proof {
        let gv = gsview(out@);
        let sp = spec_variants(g, n as nat);
        assert forall|k: int| 0 <= k < 8 implies gv[k] == sp[k] by {}
        assert(gv =~= sp);
    }
    out
}

/// Decides whether a grid is square.
pub fn is_square_grid(img: &Vec<Vec<bool>>) -> (r: bool)
    ensures
        r == grid_wf(gview(img@), img@.len() as nat),
{
    let n = img.len();
    let mut i: usize = 0;
    while i < n
        invariant
            i <= n,
            n == img@.len(),
            forall|a: int| 0 <= a < i ==> (#[trigger] gview(img@)[a]).len() == n,
        decreases n - i,
    {
        if img[i].len() != n {
            proof {
                assert(gview(img@)[i as int].len() != n);
            }
            return false;
        }
        i = i + 1;
    }
    true
}

/// Every one of the eight variants of a square grid is itself square of
/// the same side.
pub proof fn lemma_variants_wf(g: Seq<Seq<bool>>, n: nat)
    requires
        grid_wf(g, n),
    ensures
        forall|k: int| 0 <= k < 8 ==> grid_wf(#[trigger] spec_variants(g, n)[k], n),
{
    let r1 = spec_rotate_left(g, n);
    let r2 = spec_rotate_left(r1, n);
    let r3 = spec_rotate_left(r2, n);
    assert(grid_wf(r1, n));
    assert(grid_wf(r2, n));
    assert(grid_wf(r3, n));
    assert(grid_wf(spec_flip(g, n), n));
    assert(grid_wf(spec_flip(r1, n), n));
    assert(grid_wf(spec_flip(r2, n), n));
    assert(grid_wf(spec_flip(r3, n), n));
    assert forall|k: int| 0 <= k < 8 implies grid_wf(#[trigger] spec_variants(g, n)[k], n) by {
        if k == 0 {
            assert(spec_variants(g, n)[0] == g);
        } else if k == 1 {
            assert(spec_variants(g, n)[1] == r1);
        } else if k == 2 {
            assert(spec_variants(g, n)[2] == r2);
        } else if k == 3 {
            assert(spec_variants(g, n)[3] == r3);
        } else if k == 4 {
            assert(spec_variants(g, n)[4] == spec_flip(g, n));
        } else if k == 5 {
            assert(spec_variants(g, n)[5] == spec_flip(r1, n));
        } else if k == 6 {
            assert(spec_variants(g, n)[6] == spec_flip(r2, n));
        } else {
            assert(spec_variants(g, n)[7] == spec_flip(r3, n));
        }
    }
}

/// Law: rotating a square grid four times returns the original grid.
pub proof fn lemma_rotate_four(g: Seq<Seq<bool>>, n: nat)
    requires
        grid_wf(g, n),
    ensures
        spec_rotate_left(spec_rotate_left(spec_rotate_left(spec_rotate_left(g, n), n), n), n)
            == g,
{
    let r1 = spec_rotate_left(g, n);
    let r2 = spec_rotate_left(r1, n);
    let r3 = spec_rotate_left(r2, n);
    let r4 = spec_rotate_left(r3, n);
    assert forall|i: int| 0 <= i < n implies r4[i] == g[i] by {
        assert forall|j: int| 0 <= j < n implies r4[i][j] == g[i][j] by {
            assert(r4[i][j] == r3[j][n - 1 - i]);
            assert(r3[j][n - 1 - i] == r2[n - 1 - i][n - 1 - j]);
            assert(r2[n - 1 - i][n - 1 - j] == r1[n - 1 - j][i]);
            assert(r1[n - 1 - j][i] == g[i][j]);
        }
        assert(r4[i] =~= g[i]);
    }
    assert(r4 =~= g);
}

/// Law: a quarter turn of a mirrored grid equals the mirror of three
/// quarter turns.
pub proof fn lemma_rotate_flip(g: Seq<Seq<bool>>, n: nat)
    ensures
        spec_rotate_left(spec_flip(g, n), n) == spec_flip(
            spec_rotate_left(spec_rotate_left(spec_rotate_left(g, n), n), n),
            n,
        ),
{
    let lhs = spec_rotate_left(spec_flip(g, n), n);
    let r1 = spec_rotate_left(g, n);
    let r2 = spec_rotate_left(r1, n);
    let r3 = spec_rotate_left(r2, n);
    let rhs = spec_flip(r3, n);
    assert forall|i: int| 0 <= i < n implies lhs[i] == rhs[i] by {
        assert forall|j: int| 0 <= j < n implies lhs[i][j] == rhs[i][j] by {
            assert(lhs[i][j] == spec_flip(g, n)[j][n - 1 - i]);
            assert(spec_flip(g, n)[j] == g[n - 1 - j]);
            assert(rhs[i][j] == r3[n - 1 - i][j]);
            assert(r3[n - 1 - i][j] == r2[j][i]);
            assert(r2[j][i] == r1[i][n - 1 - j]);
            assert(r1[i][n - 1 - j] == g[n - 1 - j][n - 1 - i]);
        }
        assert(lhs[i] =~= rhs[i]);
    }
    assert(lhs =~= rhs);
}

/// Law: a quarter turn carries each of the eight variants to another of
/// the eight variants.
pub proof fn lemma_rotation_of_variant(g: Seq<Seq<bool>>, n: nat, p: int)
    requires
        grid_wf(g, n),
        0 <= p < 8,
    ensures
        exists|p2: int|
            0 <= p2 < 8 && #[trigger] spec_variants(g, n)[p2] == spec_rotate_left(
                spec_variants(g, n)[p],
                n,
            ),
{
    let vs = spec_variants(g, n);
    let r1 = spec_rotate_left(g, n);
    let r2 = spec_rotate_left(r1, n);
    let r3 = spec_rotate_left(r2, n);
    lemma_rotate_four(g, n);
    if p == 0 {
        assert(vs[1] == spec_rotate_left(vs[0], n));
    } else if p == 1 {
        assert(vs[2] == spec_rotate_left(vs[1], n));
    } else if p == 2 {
        assert(vs[3] == spec_rotate_left(vs[2], n));
    } else if p == 3 {
        assert(vs[0] == spec_rotate_left(vs[3], n));
    } else if p == 4 {
        lemma_rotate_flip(g, n);
        assert(vs[7] == spec_rotate_left(vs[4], n));
    } else if p == 5 {
        lemma_rotate_flip(r1, n);
        // three further turns of the first rotation close the circle
        assert(vs[4] == spec_rotate_left(vs[5], n));
    } else if p == 6 {
        lemma_rotate_flip(r2, n);
        lemma_rotate_four(r1, n);
        assert(vs[5] == spec_rotate_left(vs[6], n));
    } else {
        lemma_rotate_flip(r3, n);
        lemma_rotate_four(r2, n);
        assert(vs[6] == spec_rotate_left(vs[7], n));
    }
}

/// Law: the mirror carries each of the eight variants to another of the
/// eight variants.
pub proof fn lemma_flip_of_variant(g: Seq<Seq<bool>>, n: nat, p: int)
    requires
        grid_wf(g, n),
        0 <= p < 8,
    ensures
        exists|p2: int|
            0 <= p2 < 8 && #[trigger] spec_variants(g, n)[p2] == spec_flip(
                spec_variants(g, n)[p],
                n,
            ),
{
    let vs = spec_variants(g, n);
    let r1 = spec_rotate_left(g, n);
    let r2 = spec_rotate_left(r1, n);
    let r3 = spec_rotate_left(r2, n);
    if p < 4 {
        assert(vs[p + 4] == spec_flip(vs[p], n));
    } else if p == 4 {
        lemma_flip_twice(g, n);
        assert(vs[0] == spec_flip(vs[4], n));
    } else if p == 5 {
        lemma_flip_twice(r1, n);
        assert(vs[1] == spec_flip(vs[5], n));
    } else if p == 6 {
        lemma_flip_twice(r2, n);
        assert(vs[2] == spec_flip(vs[6], n));
    } else {
        lemma_flip_twice(r3, n);
        assert(vs[3] == spec_flip(vs[7], n));
    }
}

/// Law: mirroring a grid twice returns the original grid.
pub proof fn lemma_flip_twice(g: Seq<Seq<bool>>, n: nat)
    requires
        g.len() == n,
    ensures
        spec_flip(spec_flip(g, n), n) == g,
{
    let f1 = spec_flip(g, n);
    let f2 = spec_flip(f1, n);
    assert forall|i: int| 0 <= i < n implies f2[i] == g[i] by {
        assert(f2[i] == f1[n - 1 - i]);
    }
    assert(f2 =~= g);
}

} // verus!
