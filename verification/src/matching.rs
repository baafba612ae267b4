//! Border matching between tiles, adjacency degrees and the corner product.
//!
//! Two tiles are adjacent in the solved puzzle exactly when some variant of
//! one has a top row equal to the top row of some variant of the other;
//! across the eight variants the top row takes every edge of the original
//! grid in both directions, so comparing top rows alone is enough.

use vstd::prelude::*;
use crate::grid::gsview;
use crate::grid::grid_wf;

verus! {

/// One input tile: a unique positive identifier and its eight
/// orientation variants.
pub struct Tile {
    pub id: usize,
    pub grids: Vec<Vec<Vec<bool>>>,
}

/// A tile record is well formed when it holds exactly eight variants,
/// each a square grid of side `n`.
pub open spec fn tile_wf(t: Tile, n: nat) -> bool {
    t.grids@.len() == 8 && forall|p: int| 0 <= p < 8 ==> grid_wf(#[trigger] gsview(t.grids@)[p], n)
}

/// Every variant of the tile has at least one row, so that it has a top
/// border at all.
pub open spec fn tile_has_tops(t: Tile) -> bool {
    forall|p: int| 0 <= p < t.grids@.len() ==> (#[trigger] t.grids@[p])@.len() > 0
}

/// Two tiles share a border when the top row of some variant of one is
/// pixel-equal to the top row of some variant of the other.
pub open spec fn share_border(a: Tile, b: Tile) -> bool {
    exists|p: int, q: int|
        #![trigger a.grids@[p], b.grids@[q]]
        0 <= p < a.grids@.len() && 0 <= q < b.grids@.len() && a.grids@[p]@[0]@ == b.grids@[q]@[0]@
}

/// The matching pairs among tiles `i` and upward, with the pair scan for
/// tile `i` itself already advanced to partner `j`: the identifier pairs of
/// all sharing pairs, in the order of a double loop over indices.
pub open spec fn pairs_from(ts: Seq<Tile>, i: int, j: int) -> Seq<(usize, usize)>
    decreases ts.len() - i, ts.len() - j,
{
    if i < 0 || j <= i || ts.len() <= i {
        Seq::empty()
    } else if ts.len() <= j {
        pairs_from(ts, i + 1, i + 2)
    } else if share_border(ts[i], ts[j]) {
        seq![(ts[i].id, ts[j].id)] + pairs_from(ts, i, j + 1)
    } else {
        pairs_from(ts, i, j + 1)
    }
}

/// The full list of matching identifier pairs of a tile set.
pub open spec fn match_pairs(ts: Seq<Tile>) -> Seq<(usize, usize)> {
    pairs_from(ts, 0, 1)
}

/// Compares two pixel rows.
pub fn rows_equal(a: &Vec<bool>, b: &Vec<bool>) -> (r: bool)
    ensures
        r == (a@ == b@),
{
    if a.len() != b.len() {
        return false;
    }
    let mut j: usize = 0;
    while j < a.len()
        invariant
            a@.len() == b@.len(),
            j <= a@.len(),
            forall|t: int| 0 <= t < j ==> a@[t] == b@[t],
        decreases a@.len() - j,
    {
        if a[j] != b[j] {
            return false;
        }
        j = j + 1;
    }
    proof {
        assert(a@ =~= b@);
    }
    true
}

/// Decides whether two tiles share a border, by comparing the top rows of
/// all variant pairs.
pub fn tiles_share(a: &Tile, b: &Tile) -> (r: bool)
    requires
        tile_has_tops(*a),
        tile_has_tops(*b),
    ensures
        r == share_border(*a, *b),
{
    let mut p: usize = 0;
    while p < a.grids.len()
        invariant
            tile_has_tops(*a),
            tile_has_tops(*b),
            p <= a.grids@.len(),
            forall|s: int, t: int|
                #![trigger a.grids@[s], b.grids@[t]]
                0 <= s < p && 0 <= t < b.grids@.len() ==> a.grids@[s]@[0]@ != b.grids@[t]@[0]@,
        decreases a.grids@.len() - p,
    {
        let mut q: usize = 0;
        while q < b.grids.len()
            invariant
                tile_has_tops(*a),
                tile_has_tops(*b),
                p < a.grids@.len(),
                q <= b.grids@.len(),
                forall|t: int|
                    #![trigger b.grids@[t]]
                    0 <= t < q ==> a.grids@[p as int]@[0]@ != b.grids@[t]@[0]@,
            decreases b.grids@.len() - q,
        {
            if rows_equal(&a.grids[p][0], &b.grids[q][0]) {
                proof {
                    assert(a.grids@[p as int]@[0]@ == b.grids@[q as int]@[0]@);
                }
                return true;
            }
            q = q + 1;
        }
        p = p + 1;
    }
    false
}

/// Finds every unordered pair of distinct tiles that share a border, as
/// pairs of tile identifiers in input order.
pub fn matches(tiles: &Vec<Tile>) -> (r: Vec<(usize, usize)>)
    requires
        forall|k: int| 0 <= k < tiles@.len() ==> #[trigger] tile_has_tops(tiles@[k]),
    ensures
        r@ == match_pairs(tiles@),
{
    let ghost total = match_pairs(tiles@);
    let mut out: Vec<(usize, usize)> = Vec::new();
    proof {
        assert(out@ + pairs_from(tiles@, 0, 1) =~= total);
    }
    let mut i: usize = 0;
    while i < tiles.len()
        invariant
            i <= tiles@.len(),
            forall|k: int| 0 <= k < tiles@.len() ==> #[trigger] tile_has_tops(tiles@[k]),
            out@ + pairs_from(tiles@, i as int, i + 1) == total,
            total == match_pairs(tiles@),
        decreases tiles@.len() - i,
    {
        let mut j: usize = i + 1;
        while j < tiles.len()
            invariant
                i < tiles@.len(),
                i < j <= tiles@.len(),
                forall|k: int| 0 <= k < tiles@.len() ==> #[trigger] tile_has_tops(tiles@[k]),
                out@ + pairs_from(tiles@, i as int, j as int) == total,
                total == match_pairs(tiles@),
            decreases tiles@.len() - j,
        {
            if tiles_share(&tiles[i], &tiles[j]) {
                let pair = (tiles[i].id, tiles[j].id);
                proof {
                    let rest = pairs_from(tiles@, i as int, j + 1);
                    assert(pairs_from(tiles@, i as int, j as int) == seq![pair] + rest);
                    assert(out@.push(pair) + rest =~= out@ + (seq![pair] + rest));
                }
                out.push(pair);
            } else {
                proof {
                    assert(pairs_from(tiles@, i as int, j as int)
                        == pairs_from(tiles@, i as int, j + 1));
                }
            }
            j = j + 1;
        }
        proof {
            assert(pairs_from(tiles@, i as int, j as int) == pairs_from(tiles@, i + 1, i + 2));
        }
        i = i + 1;
    }
    proof {
        assert(pairs_from(tiles@, i as int, i + 1) =~= Seq::<(usize, usize)>::empty());
        assert(out@ + Seq::<(usize, usize)>::empty() =~= out@);
    }
    out
}

proof fn lemma_pairs_from_sound(ts: Seq<Tile>, i0: int, j0: int, k: int)
    requires
        0 <= k < pairs_from(ts, i0, j0).len(),
    ensures
        exists|i: int, j: int|
            #![auto]
            0 <= i < j < ts.len() && i0 <= i && (i == i0 ==> j0 <= j)
                && pairs_from(ts, i0, j0)[k] == (ts[i].id, ts[j].id) && share_border(ts[i], ts[j]),
    decreases ts.len() - i0, ts.len() - j0,
{
    if i0 < 0 || j0 <= i0 || ts.len() <= i0 {
        // the sequence is empty, nothing to show
    } else if ts.len() <= j0 {
        lemma_pairs_from_sound(ts, i0 + 1, i0 + 2, k);
    } else if share_border(ts[i0], ts[j0]) {
        let rest = pairs_from(ts, i0, j0 + 1);
        if k == 0 {
            assert(pairs_from(ts, i0, j0)[0] == (ts[i0].id, ts[j0].id));
        } else {
            assert(pairs_from(ts, i0, j0)[k] == rest[k - 1]);
            lemma_pairs_from_sound(ts, i0, j0 + 1, k - 1);
        }
    } else {
        lemma_pairs_from_sound(ts, i0, j0 + 1, k);
    }
}

/// Law (soundness): every pair that the border matcher reports names two
/// distinct tiles of the input whose variants really share a top border.
pub proof fn lemma_match_pairs_sound(ts: Seq<Tile>, k: int)
    requires
        0 <= k < match_pairs(ts).len(),
    ensures
        exists|i: int, j: int|
            #![auto]
            0 <= i < j < ts.len() && match_pairs(ts)[k] == (ts[i].id, ts[j].id)
                && share_border(ts[i], ts[j]),
{
    lemma_pairs_from_sound(ts, 0, 1, k);
}

proof fn lemma_pairs_from_complete(ts: Seq<Tile>, i0: int, j0: int, i: int, j: int)
    requires
        0 <= i0,
        i0 < j0,
        i0 <= i < j < ts.len(),
        i == i0 ==> j0 <= j,
        share_border(ts[i], ts[j]),
    ensures
        pairs_from(ts, i0, j0).contains((ts[i].id, ts[j].id)),
    decreases ts.len() - i0, ts.len() - j0,
{
    if ts.len() <= j0 {
        lemma_pairs_from_complete(ts, i0 + 1, i0 + 2, i, j);
    } else if i == i0 && j == j0 {
        assert(pairs_from(ts, i0, j0)[0] == (ts[i].id, ts[j].id));
    } else if share_border(ts[i0], ts[j0]) {
        lemma_pairs_from_complete(ts, i0, j0 + 1, i, j);
        let rest = pairs_from(ts, i0, j0 + 1);
        let t = choose|t: int| 0 <= t < rest.len() && rest[t] == (ts[i].id, ts[j].id);
        assert(pairs_from(ts, i0, j0)[t + 1] == (ts[i].id, ts[j].id));
    } else {
        lemma_pairs_from_complete(ts, i0, j0 + 1, i, j);
    }
}

/// Law (completeness): every pair of distinct tiles that shares a border is
/// reported by the border matcher.
pub proof fn lemma_match_pairs_complete(ts: Seq<Tile>, i: int, j: int)
    requires
        0 <= i < j < ts.len(),
        share_border(ts[i], ts[j]),
    ensures
        match_pairs(ts).contains((ts[i].id, ts[j].id)),
{
    lemma_pairs_from_complete(ts, 0, 1, i, j);
}

/// How many of the matched pairs involve the given tile identifier.
pub open spec fn degree(pairs: Seq<(usize, usize)>, id: usize) -> nat
    decreases pairs.len(),
{
    if pairs.len() == 0 {
        0
    } else {
        degree(pairs.drop_last(), id) + (if pairs.last().0 == id || pairs.last().1 == id {
            1nat
        } else {
            0nat
        })
    }
}

/// Counts the matched pairs that involve the given tile identifier.
pub fn count_degree(pairs: &Vec<(usize, usize)>, id: usize) -> (c: usize)
    ensures
        c as nat == degree(pairs@, id),
{
    let mut c: usize = 0;
    let mut j: usize = 0;
    while j < pairs.len()
        invariant
            j <= pairs@.len(),
            c <= j,
            c as nat == degree(pairs@.take(j as int), id),
        decreases pairs@.len() - j,
    {
        proof {
            assert(pairs@.take(j + 1).drop_last() =~= pairs@.take(j as int));
            assert(pairs@.take(j + 1).last() == pairs@[j as int]);
        }
        if pairs[j].0 == id || pairs[j].1 == id {
            c = c + 1;
        }
        j = j + 1;
    }
    proof {
        assert(pairs@.take(pairs@.len() as int) =~= pairs@);
    }
    c
}

/// For each tile identifier, its adjacency degree: the number of matched
/// pairs that involve it.
pub fn tile_adjacents(ids: &Vec<usize>, pairs: &Vec<(usize, usize)>) -> (r: Vec<(usize, usize)>)
    ensures
        r@.len() == ids@.len(),
        forall|k: int|
            0 <= k < ids@.len()
                ==> #[trigger] r@[k] == (ids@[k], degree(pairs@, ids@[k]) as usize),
{
    let mut out: Vec<(usize, usize)> = Vec::new();
    let mut k: usize = 0;
    while k < ids.len()
        invariant
            k <= ids@.len(),
            out@.len() == k,
            forall|t: int|
                0 <= t < k ==> #[trigger] out@[t] == (ids@[t], degree(pairs@, ids@[t]) as usize),
        decreases ids@.len() - k,
    {
        let d = count_degree(pairs, ids[k]);
        out.push((ids[k], d));
        k = k + 1;
    }
    out
}

/// The product of the identifiers whose adjacency degree is two: the
/// corner tiles of the grid.
pub open spec fn corner_product_spec(adjs: Seq<(usize, usize)>) -> int
    decreases adjs.len(),
{
    if adjs.len() == 0 {
        1
    } else {
        corner_product_spec(adjs.drop_last()) * (if adjs.last().1 == 2 {
            adjs.last().0 as int
        } else {
            1
        })
    }
}

proof fn lemma_corner_product_pos(adjs: Seq<(usize, usize)>)
    requires
        forall|k: int| 0 <= k < adjs.len() ==> 1 <= (#[trigger] adjs[k]).0,
    ensures
        corner_product_spec(adjs) >= 1,
    decreases adjs.len(),
{
    if adjs.len() > 0 {
        lemma_corner_product_pos(adjs.drop_last());
        let a = corner_product_spec(adjs.drop_last());
        let f: int = if adjs.last().1 == 2 { adjs.last().0 as int } else { 1 };
        assert(a * f >= 1) by (nonlinear_arith)
            requires
                a >= 1,
                f >= 1,
        ;
    }
}

proof fn lemma_corner_product_prefix(adjs: Seq<(usize, usize)>, j: int)
    requires
        0 <= j <= adjs.len(),
        forall|k: int| 0 <= k < adjs.len() ==> 1 <= (#[trigger] adjs[k]).0,
    ensures
        corner_product_spec(adjs) >= corner_product_spec(adjs.take(j)),
    decreases adjs.len() - j,
{
    if j == adjs.len() {
        assert(adjs.take(j) =~= adjs);
    } else {
        lemma_corner_product_prefix(adjs, j + 1);
        assert(adjs.take(j + 1).drop_last() =~= adjs.take(j));
        let a = corner_product_spec(adjs.take(j));
        let f: int = if adjs.take(j + 1).last().1 == 2 { adjs.take(j + 1).last().0 as int } else {
            1
        };
        assert(forall|k: int| 0 <= k < j ==> 1 <= (#[trigger] adjs.take(j)[k]).0);
        lemma_corner_product_pos(adjs.take(j));
        assert(a * f >= a) by (nonlinear_arith)
            requires
                a >= 1,
                f >= 1,
        ;
    }
}

/// Multiplies the identifiers of the corner tiles (degree two); reports
/// nothing when the product does not fit a machine word.
pub fn corner_product(adjs: &Vec<(usize, usize)>) -> (r: Option<usize>)
    requires
        forall|k: int| 0 <= k < adjs@.len() ==> 1 <= (#[trigger] adjs@[k]).0,
    ensures
        match r {
            Some(p) => p as int == corner_product_spec(adjs@),
            None => corner_product_spec(adjs@) > usize::MAX as int,
        },
{
    let mut acc: usize = 1;
    let mut j: usize = 0;
    while j < adjs.len()
        invariant
            j <= adjs@.len(),
            forall|k: int| 0 <= k < adjs@.len() ==> 1 <= (#[trigger] adjs@[k]).0,
            acc >= 1,
            acc as int == corner_product_spec(adjs@.take(j as int)),
        decreases adjs@.len() - j,
    {
        proof {
            assert(adjs@.take(j + 1).drop_last() =~= adjs@.take(j as int));
            assert(adjs@.take(j + 1).last() == adjs@[j as int]);
        }
        let entry = adjs[j];
        if entry.1 == 2 {
            let id = entry.0;
            match acc.checked_mul(id) {
                Some(v) => {
                    proof {
                        assert(v >= 1) by (nonlinear_arith)
                            requires
                                v == acc * id,
                                acc >= 1,
                                id >= 1,
                        ;
                    }
                    acc = v;
                },
                None => {
                    proof {
                        lemma_corner_product_prefix(adjs@, j + 1);
                    }
                    return None;
                },
            }
        }
        j = j + 1;
    }
    proof {
        assert(adjs@.take(adjs@.len() as int) =~= adjs@);
    }
    Some(acc)
}

} // verus!
