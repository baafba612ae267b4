//! Scanning the composite image for the fixed pixel motif.
//!
//! The scanner tries the eight orientations of the composite image in
//! order.  Within one orientation it slides the motif anchor over every
//! position in row-major order; wherever every motif pixel is set it marks
//! the instance by clearing those pixels in a working copy.  The first
//! orientation that contains at least one instance decides the result: the
//! number of pixels still set after marking.

use vstd::prelude::*;
use crate::assemble::PuzzleError;
use crate::grid::grid_wf;
use crate::grid::gsview;
use crate::grid::gview;
use crate::grid::lemma_variants_wf;
use crate::grid::obtain_transformations;
use crate::grid::spec_variants;

verus! {

/// The fixed motif: the (row offset, column offset) pairs, relative to the
/// anchor, that must all be set pixels for a match.
pub open spec fn motif() -> Seq<(usize, usize)> {
    seq![
        (0usize, 18usize),
        (1usize, 0usize),
        (1usize, 5usize),
        (1usize, 6usize),
        (1usize, 11usize),
        (1usize, 12usize),
        (1usize, 17usize),
        (1usize, 18usize),
        (1usize, 19usize),
        (2usize, 1usize),
        (2usize, 4usize),
        (2usize, 7usize),
        (2usize, 10usize),
        (2usize, 13usize),
        (2usize, 16usize),
    ]
}

/// Builds the motif offsets as data.
pub fn motif_offsets() -> (v: Vec<(usize, usize)>)
    ensures
        v@ == motif(),
{
    let mut v: Vec<(usize, usize)> = Vec::new();
    v.push((0, 18));
    v.push((1, 0));
    v.push((1, 5));
    v.push((1, 6));
    v.push((1, 11));
    v.push((1, 12));
    v.push((1, 17));
    v.push((1, 18));
    v.push((1, 19));
    v.push((2, 1));
    v.push((2, 4));
    v.push((2, 7));
    v.push((2, 10));
    v.push((2, 13));
    v.push((2, 16));
    proof {
        assert(v@ =~= motif());
    }
    v
}

/// A motif instance anchored at (r, c): every offset lands in bounds on a
/// set pixel.
pub open spec fn hit_at(img: Seq<Seq<bool>>, r: int, c: int) -> bool {
    forall|k: int|
        0 <= k < motif().len() ==> {
            let dr = (#[trigger] motif()[k]).0;
            let dc = motif()[k].1;
            &&& 0 <= r + dr < img.len()
            &&& 0 <= c + dc < img[r + dr].len()
            &&& img[r + dr][c + dc]
        }
}

/// The image with the motif pixels anchored at (r, c) cleared.
pub open spec fn clear_at(img: Seq<Seq<bool>>, r: int, c: int) -> Seq<Seq<bool>> {
    Seq::new(
        img.len(),
        |i: int|
            Seq::new(
                img[i].len(),
                |j: int|
                    if exists|k: int|
                        0 <= k < motif().len() && i == r + (#[trigger] motif()[k]).0 && j == c
                            + motif()[k].1 {
                        false
                    } else {
                        img[i][j]
                    },
            ),
    )
}

/// One scan step: mark the motif anchored at (r, c) when it is present.
pub open spec fn step_at(img: Seq<Seq<bool>>, r: int, c: int) -> Seq<Seq<bool>> {
    if hit_at(img, r, c) {
        clear_at(img, r, c)
    } else {
        img
    }
}

/// Marks the anchors of row `r` from column `c` rightwards, in order.
pub open spec fn scan_cols(img: Seq<Seq<bool>>, r: int, c: int, side: int) -> Seq<Seq<bool>>
    decreases side - c,
{
    if c < 0 || side <= c {
        img
    } else {
        scan_cols(step_at(img, r, c), r, c + 1, side)
    }
}

/// Marks the anchors of the rows from `r` downwards, in row-major order.
pub open spec fn scan_rows(img: Seq<Seq<bool>>, r: int, side: int) -> Seq<Seq<bool>>
    decreases side - r,
{
    if r < 0 || side <= r {
        img
    } else {
        scan_rows(scan_cols(img, r, 0, side), r + 1, side)
    }
}

/// The working image after every motif instance was marked, in row-major
/// anchor order.
pub open spec fn scan_marked(img: Seq<Seq<bool>>) -> Seq<Seq<bool>> {
    scan_rows(img, 0, img.len() as int)
}

/// Some anchor of the image carries the motif.
pub open spec fn any_hit(img: Seq<Seq<bool>>) -> bool {
    exists|r: int, c: int| hit_at(img, r, c)
}

/// The number of set pixels among the first `j` of a row.
pub open spec fn count_row(row: Seq<bool>, j: int) -> int
    decreases j,
{
    if j <= 0 {
        0
    } else {
        count_row(row, j - 1) + if row[j - 1] {
            1int
        } else {
            0int
        }
    }
}

/// The number of set pixels among the first `i` rows.
pub open spec fn count_grid(img: Seq<Seq<bool>>, i: int) -> int
    decreases i,
{
    if i <= 0 {
        0
    } else {
        count_grid(img, i - 1) + count_row(img[i - 1], img[i - 1].len() as int)
    }
}

/// The number of set pixels of the image.
pub open spec fn count_set(img: Seq<Seq<bool>>) -> int {
    count_grid(img, img.len() as int)
}

/// An anchor carrying the motif lies strictly inside a square image.
proof fn lemma_hit_bounds(img: Seq<Seq<bool>>, side: nat, r: int, c: int)
    requires
        grid_wf(img, side),
        hit_at(img, r, c),
    ensures
        0 <= r < side,
        0 <= c < side,
{
    assert(motif()[0] == (0usize, 18usize));
    assert(motif()[1] == (1usize, 0usize));
    assert(0 <= r + 0 < img.len() && 0 <= c + 18 < img[r + 0].len() && img[r + 0][c + 18]);
    assert(0 <= r + 1 < img.len() && 0 <= c + 0 < img[r + 1].len() && img[r + 1][c + 0]);
    assert(img[r + 1].len() == side);
}

/// Two grids of the same shape: equal row count and row lengths.
pub open spec fn same_shape(a: Seq<Seq<bool>>, b: Seq<Seq<bool>>) -> bool {
    a.len() == b.len() && forall|i: int| 0 <= i < a.len() ==> (#[trigger] a[i]).len() == b[i].len()
}

proof fn lemma_step_shape(img: Seq<Seq<bool>>, r: int, c: int)
    ensures
        same_shape(step_at(img, r, c), img),
{
}

proof fn lemma_scan_cols_shape(img: Seq<Seq<bool>>, r: int, c: int, side: int)
    ensures
        same_shape(scan_cols(img, r, c, side), img),
    decreases side - c,
{
    if c < 0 || side <= c {
    } else {
        lemma_step_shape(img, r, c);
        lemma_scan_cols_shape(step_at(img, r, c), r, c + 1, side);
    }
}

proof fn lemma_scan_rows_shape(img: Seq<Seq<bool>>, r: int, side: int)
    ensures
        same_shape(scan_rows(img, r, side), img),
    decreases side - r,
{
    if r < 0 || side <= r {
    } else {
        lemma_scan_cols_shape(img, r, 0, side);
        lemma_scan_rows_shape(scan_cols(img, r, 0, side), r + 1, side);
    }
}

/// Marking motif instances keeps the shape of the image.
pub proof fn lemma_scan_marked_shape(img: Seq<Seq<bool>>)
    ensures
        same_shape(scan_marked(img), img),
{
    lemma_scan_rows_shape(img, 0, img.len() as int);
}

/// The image with the first `k` motif offsets anchored at (r, c) cleared.
spec fn clear_prefix(img: Seq<Seq<bool>>, r: int, c: int, k: int) -> Seq<Seq<bool>> {
    Seq::new(
        img.len(),
        |i: int|
            Seq::new(
                img[i].len(),
                |j: int|
                    if exists|t: int|
                        0 <= t < k && i == r + (#[trigger] motif()[t]).0 && j == c + motif()[t].1 {
                        false
                    } else {
                        img[i][j]
                    },
            ),
    )
}

/// Copies a pixel row with one pixel cleared.
fn row_with_cleared(row: &Vec<bool>, j: usize) -> (r: Vec<bool>)
    requires
        j < row@.len(),
    ensures
        r@ == row@.update(j as int, false),
{
    let mut out: Vec<bool> = Vec::new();
    let mut t: usize = 0;
    while t < row.len()
        invariant
            t <= row@.len(),
            j < row@.len(),
            out@.len() == t,
            forall|b: int|
                0 <= b < t ==> #[trigger] out@[b] == (if b == j {
                    false
                } else {
                    row@[b]
                }),
        decreases row@.len() - t,
    {
        if t == j {
            out.push(false);
        } else {
            out.push(row[t]);
        }
        t = t + 1;
    }
    proof {
        assert(out@ =~= row@.update(j as int, false));
    }
    out
}

/// Clears one pixel of the working image.
fn clear_px(img: &mut Vec<Vec<bool>>, i: usize, j: usize)
    requires
        i < old(img)@.len(),
        j < old(img)@[i as int]@.len(),
    ensures
        final(img)@.len() == old(img)@.len(),
        gview(final(img)@) == gview(old(img)@).update(
            i as int,
            gview(old(img)@)[i as int].update(j as int, false),
        ),
{
    let nr = row_with_cleared(&img[i], j);
    img[i] = nr;
    proof {
        assert(gview(img@) =~= gview(old(img)@).update(
            i as int,
            gview(old(img)@)[i as int].update(j as int, false),
        ));
    }
}

/// Clears every motif pixel anchored at (x, y); the motif must be present
/// there.
fn mark_hit(img: &mut Vec<Vec<bool>>, offs: &Vec<(usize, usize)>, x: usize, y: usize)
    requires
        offs@ == motif(),
        hit_at(gview(old(img)@), x as int, y as int),
    ensures
        final(img)@.len() == old(img)@.len(),
        gview(final(img)@) == clear_at(gview(old(img)@), x as int, y as int),
{
    let ghost orig = gview(old(img)@);
    let len0 = img.len();
    proof {
        assert(gview(img@) =~~= clear_prefix(orig, x as int, y as int, 0));
    }
    let mut k: usize = 0;
    while k < offs.len()
        invariant
            k <= offs@.len(),
            offs@ == motif(),
            hit_at(orig, x as int, y as int),
            orig == gview(old(img)@),
            img@.len() == old(img)@.len(),
            len0 == old(img)@.len(),
            gview(img@) == clear_prefix(orig, x as int, y as int, k as int),
        decreases offs@.len() - k,
    {
        let (dr, dc) = offs[k];
        proof {
            assert(motif()[k as int] == (dr, dc));
            assert(0 <= x as int + dr < orig.len() && 0 <= y as int + dc < orig[x as int + dr].len()
                && orig[x as int + dr][y as int + dc]);
            assert(gview(img@)[x as int + dr].len() == orig[x as int + dr].len());
            assert(img@[x + dr]@.len() == orig[x as int + dr].len());
        }
        let i = x + dr;
        let row_len = img[i].len();
        proof {
            assert(row_len == orig[x as int + dr].len());
        }
        let j = y + dc;
        let ghost before = gview(img@);
        clear_px(img, i, j);
        proof {
            let lhs = gview(img@);
            let rhs = clear_prefix(orig, x as int, y as int, k + 1);
            assert forall|a: int| 0 <= a < lhs.len() implies lhs[a] == rhs[a] by {
                assert forall|b: int| 0 <= b < lhs[a].len() implies lhs[a][b] == rhs[a][b] by {
                    if a == i && b == j {
                        assert(rhs[a][b] == false);
                    } else {
                        assert(lhs[a][b] == before[a][b]);
                        if exists|t: int|
                            0 <= t < k + 1 && a == x + (#[trigger] motif()[t]).0 && b == y
                                + motif()[t].1 {
                            let t = choose|t: int|
                                0 <= t < k + 1 && a == x + (#[trigger] motif()[t]).0 && b == y
                                    + motif()[t].1;
                            assert(t < k);
                            assert(before[a][b] == false);
                            assert(rhs[a][b] == false);
                        } else {
                            assert(before[a][b] == orig[a][b]);
                            assert(rhs[a][b] == orig[a][b]);
                        }
                    }
                }
                assert(lhs[a] =~= rhs[a]);
            }
            assert(lhs =~= rhs);
        }
        k = k + 1;
    }
    proof {
        assert(motif().len() == 15);
        let lhs = gview(img@);
        let rhs = clear_at(orig, x as int, y as int);
        assert forall|a: int| 0 <= a < lhs.len() implies lhs[a] == rhs[a] by {
            assert forall|b: int| 0 <= b < lhs[a].len() implies lhs[a][b] == rhs[a][b] by {}
            assert(lhs[a] =~= rhs[a]);
        }
        assert(lhs =~= rhs);
    }
}

/// Decides whether the motif is present at anchor (x, y).
fn check_hit(img: &Vec<Vec<bool>>, offs: &Vec<(usize, usize)>, x: usize, y: usize) -> (r: bool)
    requires
        offs@ == motif(),
    ensures
        r == hit_at(gview(img@), x as int, y as int),
{
    let mut k: usize = 0;
    while k < offs.len()
        invariant
            k <= offs@.len(),
            offs@ == motif(),
            forall|t: int|
                0 <= t < k ==> {
                    let dr = (#[trigger] motif()[t]).0;
                    let dc = motif()[t].1;
                    &&& 0 <= x + dr < gview(img@).len()
                    &&& 0 <= y + dc < gview(img@)[x + dr].len()
                    &&& gview(img@)[x + dr][y + dc]
                },
        decreases offs@.len() - k,
    {
        let (dr, dc) = offs[k];
        proof {
            assert(motif()[k as int] == (dr, dc));
        }
        if dr >= img.len() || x >= img.len() - dr {
            proof {
                assert(!(x as int + dr < gview(img@).len()));
            }
            return false;
        }
        let i = x + dr;
        proof {
            assert(gview(img@)[i as int].len() == img@[i as int]@.len());
        }
        if dc >= img[i].len() || y >= img[i].len() - dc {
            proof {
                assert(!(y as int + dc < gview(img@)[x as int + dr].len()));
            }
            return false;
        }
        let j = y + dc;
        if !img[i][j] {
            proof {
                assert(!gview(img@)[x as int + dr][y as int + dc]);
            }
            return false;
        }
        k = k + 1;
    }
    true
}

/// Scans every anchor of the working image in row-major order and marks
/// every motif instance found; reports whether any instance was found.
#[verifier::loop_isolation(false)]
fn scan_image(img: &mut Vec<Vec<bool>>) -> (found: bool)
    requires
        grid_wf(gview(old(img)@), old(img)@.len() as nat),
    ensures
        gview(final(img)@) == scan_marked(gview(old(img)@)),
        found == any_hit(gview(old(img)@)),
{
    let ghost orig = gview(old(img)@);
    let side = img.len();
    let offs = motif_offsets();
    let mut found = false;
    let mut x: usize = 0;
    while x < side
        invariant
            x <= side,
            img@.len() == side,
            same_shape(gview(img@), orig),
            scan_rows(gview(img@), x as int, side as int) == scan_rows(orig, 0, side as int),
            forall|a: int, b: int|
                0 <= a < side && 0 <= b < orig[a].len() && #[trigger] gview(img@)[a][b]
                    ==> orig[a][b],
            found ==> any_hit(orig),
            !found ==> gview(img@) == orig,
            !found ==> forall|r: int, c: int|
                0 <= r < x && 0 <= c < side ==> !hit_at(orig, r, c),
        decreases side - x,
    {
        let mut y: usize = 0;
        while y < side
            invariant
                y <= side,
                img@.len() == side,
                same_shape(gview(img@), orig),
                scan_rows(
                    scan_cols(gview(img@), x as int, y as int, side as int),
                    x + 1,
                    side as int,
                ) == scan_rows(orig, 0, side as int),
                forall|a: int, b: int|
                    0 <= a < side && 0 <= b < orig[a].len() && #[trigger] gview(img@)[a][b]
                        ==> orig[a][b],
                found ==> any_hit(orig),
                !found ==> gview(img@) == orig,
                !found ==> forall|r: int, c: int|
                    0 <= r < x && 0 <= c < side ==> !hit_at(orig, r, c),
                !found ==> forall|c: int| 0 <= c < y ==> !hit_at(orig, x as int, c),
            decreases side - y,
        {
            let ghost before = gview(img@);
            if check_hit(img, &offs, x, y) {
                proof {
                    assert(hit_at(orig, x as int, y as int)) by {
                        assert forall|k: int| 0 <= k < motif().len() implies {
                            let dr = (#[trigger] motif()[k]).0;
                            let dc = motif()[k].1;
                            &&& 0 <= x + dr < orig.len()
                            &&& 0 <= y + dc < orig[x + dr].len()
                            &&& orig[x + dr][y + dc]
                        } by {
                            let dr = motif()[k].0;
                            let dc = motif()[k].1;
                            assert(0 <= x + dr < before.len() && 0 <= y + dc < before[x
                                + dr].len() && before[x + dr][y + dc]);
                        }
                    }
                }
                mark_hit(img, &offs, x, y);
                found = true;
                proof {
                    assert(gview(img@) == clear_at(before, x as int, y as int));
                    assert(step_at(before, x as int, y as int) == gview(img@));
                    assert(scan_cols(before, x as int, y as int, side as int) == scan_cols(
                        gview(img@),
                        x as int,
                        y + 1,
                        side as int,
                    ));
                    assert forall|a: int, b: int|
                        0 <= a < side && 0 <= b < orig[a].len() && #[trigger] gview(img@)[a][b]
                            implies orig[a][b] by {
                        assert(gview(img@)[a][b] ==> before[a][b]);
                    }
                }
            } else {
                proof {
                    assert(step_at(before, x as int, y as int) == before);
                    assert(scan_cols(before, x as int, y as int, side as int) == scan_cols(
                        before,
                        x as int,
                        y + 1,
                        side as int,
                    ));
                }
            }
            y = y + 1;
        }
        proof {
            assert(scan_cols(gview(img@), x as int, side as int, side as int) == gview(img@));
        }
        x = x + 1;
    }
    proof {
        assert(scan_rows(gview(img@), side as int, side as int) == gview(img@));
        if !found && any_hit(orig) {
            let (r, c) = choose|r: int, c: int| hit_at(orig, r, c);
            lemma_hit_bounds(orig, side as nat, r, c);
            assert(!hit_at(orig, r, c));
        }
    }
    found
}

/// Counts the set pixels of a square image.
#[verifier::loop_isolation(false)]
fn count_ones(img: &Vec<Vec<bool>>) -> (c: usize)
    requires
        grid_wf(gview(img@), img@.len() as nat),
        img@.len() * img@.len() <= usize::MAX,
    ensures
        c as int == count_set(gview(img@)),
{
    let s = img.len();
    let mut c: usize = 0;
    let mut i: usize = 0;
    while i < s
        invariant
            i <= s,
            c as int == count_grid(gview(img@), i as int),
            c as int <= i * s,
        decreases s - i,
    {
        let mut j: usize = 0;
        while j < s
            invariant
                j <= s,
                i < s,
                c as int == count_grid(gview(img@), i as int) + count_row(
                    gview(img@)[i as int],
                    j as int,
                ),
                c as int <= i * s + j,
            decreases s - j,
        {
            proof {
                assert(gview(img@)[i as int].len() == s);
                assert(img@[i as int]@.len() == s);
                assert(i * s + j < s * s) by (nonlinear_arith)
                    requires
                        0 <= i < s,
                        0 <= j < s,
                ;
            }
            if img[i][j] {
                c = c + 1;
            }
            j = j + 1;
        }
        proof {
            assert((i + 1) * s == i * s + s) by (nonlinear_arith);
        }
        i = i + 1;
    }
    c
}

/// Law: the scanner's outcome is a function of the image alone.  The
/// orientation it settles on is unique: any two indices that each carry the
/// motif, while every earlier orientation carries none, are equal — so two
/// runs over the same variants report the same orientation, and with it the
/// same roughness count.
pub proof fn lemma_scan_outcome_unique(vs: Seq<Seq<Seq<bool>>>, o1: int, o2: int)
    requires
        0 <= o1 < vs.len(),
        0 <= o2 < vs.len(),
        any_hit(vs[o1]),
        any_hit(vs[o2]),
        forall|p: int| 0 <= p < o1 ==> !any_hit(#[trigger] vs[p]),
        forall|p: int| 0 <= p < o2 ==> !any_hit(#[trigger] vs[p]),
    ensures
        o1 == o2,
{
    if o1 < o2 {
        assert(!any_hit(vs[o1]));
    }
    if o2 < o1 {
        assert(!any_hit(vs[o2]));
    }
}

/// Tries the eight orientations of the composite image in order; in the
/// first that contains the motif, marks every instance and reports the
/// number of pixels left set.  When no orientation contains the motif,
/// reports that none was found.
#[verifier::loop_isolation(false)]
pub fn find_pattern(image: &Vec<Vec<bool>>) -> (res: Result<usize, PuzzleError>)
    requires
        grid_wf(gview(image@), image@.len() as nat),
        image@.len() * image@.len() <= usize::MAX,
    ensures
        match res {
            Ok(rough) => exists|o: int|
                #![auto]
                0 <= o < 8 && any_hit(spec_variants(gview(image@), image@.len() as nat)[o]) && (
                forall|p: int|
                    0 <= p < o ==> !any_hit(
                        #[trigger] spec_variants(gview(image@), image@.len() as nat)[p],
                    )) && rough as int == count_set(
                    scan_marked(spec_variants(gview(image@), image@.len() as nat)[o]),
                ),
            Err(e) => e == PuzzleError::NoMotifFound && forall|o: int|
                0 <= o < 8 ==> !any_hit(
                    #[trigger] spec_variants(gview(image@), image@.len() as nat)[o],
                ),
        },
{
    let n = image.len();
    let ghost sv = spec_variants(gview(image@), n as nat);
    proof {
        lemma_variants_wf(gview(image@), n as nat);
    }
    let variants = obtain_transformations(crate::grid::copy_grid(image));
    let mut o: usize = 0;
    while o < 8
        invariant
            o <= 8,
            variants@.len() == 8,
            gsview(variants@) == sv,
            forall|p: int| 0 <= p < o ==> !any_hit(#[trigger] sv[p]),
        decreases 8 - o,
    {
        proof {
            assert(sv[o as int] == gview(variants@[o as int]@));
            assert(grid_wf(sv[o as int], n as nat));
        }
        let mut work = crate::grid::copy_grid(&variants[o]);
        let found = scan_image(&mut work);
        if found {
            proof {
                lemma_scan_marked_shape(sv[o as int]);
                assert(grid_wf(gview(work@), work@.len() as nat));
            }
            let rough = count_ones(&work);
            return Ok(rough);
        }
        o = o + 1;
    }
    Err(PuzzleError::NoMotifFound)
}

} // verus!
