//! Pattern matching of bitmaps against the voxel grid, and the choices made
//! when the game starts.
use vstd::prelude::*;
use crate::grid::{
    Bitmap, Volume, count_in_grid, count_in_row, is_rect, lemma_shape2_product,
    lemma_small_shape2_fits, lemma_count_in_grid_bound, count_in_volume, lemma_volume_switch_on,
};
use crate::bitmap_loader::cross_pattern;
use crate::site::{SiteManager, collides, collision_check_fits};
use crate::state::Point2;

verus! {

/// How well a bitmap matches the grid at some place: `matching` cells agree
/// out of `total`; the score is the fraction `matching / total`.
#[derive(Clone, Copy, Debug, PartialEq, Eq, Structural)]
pub struct Goodness {
    pub matching: usize,
    pub total: usize,
}

/// The score zero, `0 / 1`.
pub open spec fn zero_goodness() -> Goodness {
    Goodness { matching: 0, total: 1 }
}

/// Whether the score `g` is strictly above `num / den` (`den > 0`). A score
/// `0 / 0` is above nothing, as a NaN compares.
pub open spec fn exceeds(g: Goodness, num: int, den: int) -> bool {
    g.matching * den > num * g.total
}

/// Whether the score `a` is strictly above the score `b`.
pub open spec fn better(a: Goodness, b: Goodness) -> bool {
    exceeds(a, b.matching as int, b.total as int)
}

/// Whether the score is above zero.
pub open spec fn positive(g: Goodness) -> bool {
    better(g, zero_goodness())
}

/// The cell-wise exclusive or of the first `rows` by `cols` cells of `a` and `b`.
pub open spec fn xor_grid(a: Seq<Seq<bool>>, b: Seq<Seq<bool>>, rows: int, cols: int) -> Seq<Seq<bool>> {
    Seq::new(rows as nat, |i: int| Seq::new(cols as nat, |j: int| a[i][j] != b[i][j]))
}

/// The `rows` by `cols` window of the first z-layer of `side` whose corner is `corner`.
pub open spec fn window(side: Volume, corner: Point2, rows: int, cols: int) -> Seq<Seq<bool>> {
    Seq::new(
        rows as nat,
        |i: int| Seq::new(cols as nat, |j: int| side.cell(corner.0 + i, corner.1 + j, 0)),
    )
}

/// Whether `bmp` placed with its corner at `cords` lies within `side`.
pub open spec fn fits_at(cords: Point2, side: Volume, bmp: Bitmap) -> bool {
    &&& cords.0 + bmp.rows() <= side.len_x()
    &&& cords.1 + bmp.cols() <= side.len_y()
}

/// What `goodness` computes: zero where the bitmap does not fit; else the
/// number of cells of the window that agree with the bitmap, out of the
/// bitmap's area.
pub open spec fn goodness_of(cords: Point2, side: Volume, bmp: Bitmap) -> Goodness {
    if !fits_at(cords, side, bmp) {
        zero_goodness()
    } else {
        Goodness {
            matching: count_in_grid(
                xor_grid(
                    window(side, cords, bmp.rows() as int, bmp.cols() as int),
                    bmp@,
                    bmp.rows() as int,
                    bmp.cols() as int,
                ),
                false,
            ) as usize,
            total: (bmp.rows() * bmp.cols()) as usize,
        }
    }
}

/// The arithmetic and the indexing of `goodness` stay in range: the corner
/// plus the bitmap's shape fits in a `usize`, and where the bitmap fits the
/// volume has a first z-layer.
pub open spec fn goodness_defined(cords: Point2, side: Volume, bmp: Bitmap) -> bool {
    &&& cords.0 + bmp.rows() <= usize::MAX
    &&& cords.0 + bmp.rows() <= side.len_x() ==> cords.1 + bmp.cols() <= usize::MAX
    &&& fits_at(cords, side, bmp) ==> side.len_z() > 0
}

/// Cell-wise exclusive or of `slice` and `bmp`, of the shape of `slice`.
pub fn xor(slice: &Bitmap, bmp: &Bitmap) -> (r: Bitmap)
    requires
        slice.rows() == 0 || slice.cols() == 0 || (bmp.rows() >= slice.rows() && bmp.cols()
            >= slice.cols()),
    ensures
        r.rows() == slice.rows(),
        r.cols() == slice.cols(),
        r@ == xor_grid(slice@, bmp@, slice.rows() as int, slice.cols() as int),
        forall|i: int, j: int|
            0 <= i < slice.rows() && 0 <= j < slice.cols() ==> #[trigger] r.cell(i, j) == (slice.cell(i, j)
                != bmp.cell(i, j)),
{
    // Create a result array with the same dimensions as the input arrays
    let (n, m) = slice.dim();
    let mut result = Bitmap::new(n, m, false);
    // Reading the shape makes the cells of `bmp` known to form a rectangle.
    let _ = bmp.dim();
    let mut i: usize = 0;
    while i < n
        invariant
            (n, m) == (slice.rows(), slice.cols()),
            slice.wf(),
            n == 0 || m == 0 || (bmp.rows() >= n && bmp.cols() >= m),
            bmp.wf(),
            i <= n,
            result.rows() == n,
            result.cols() == m,
            is_rect(result@, n as int, m as int),
            forall|k: int| 0 <= k < i ==> #[trigger] result@[k] == xor_grid(slice@, bmp@, n as int, m as int)[k],
        decreases n - i,
    {
        let mut j: usize = 0;
        while j < m
            invariant
                (n, m) == (slice.rows(), slice.cols()),
                slice.wf(),
                m > 0 ==> bmp.rows() >= n && bmp.cols() >= m,
                bmp.wf(),
                i < n,
                j <= m,
                result.rows() == n,
                result.cols() == m,
                is_rect(result@, n as int, m as int),
                forall|k: int| 0 <= k < i ==> #[trigger] result@[k] == xor_grid(slice@, bmp@, n as int, m as int)[k],
                forall|l: int| 0 <= l < j ==> result@[i as int][l] == (slice@[i as int][l] != bmp@[i as int][l]),
            decreases m - j,
        {
            let v = slice.get(i, j) != bmp.get(i, j);
            result.set(i, j, v);
            j += 1;
        }
        assert(result@[i as int] =~= xor_grid(slice@, bmp@, n as int, m as int)[i as int]);
        i += 1;
    }
    assert(result@ =~= xor_grid(slice@, bmp@, n as int, m as int));
    result
}

/// How well `bmp` matches the first z-layer of `side` with its corner at
/// `cords`: the number of agreeing cells out of the bitmap's area, or zero
/// where the bitmap does not fit.
pub fn goodness(cords: &Point2, side: &Volume, bmp: &Bitmap) -> (r: Goodness)
    requires
        goodness_defined(*cords, *side, *bmp),
    ensures
        r == goodness_of(*cords, *side, *bmp),
        r.matching <= r.total,
{
    let (rows, cols) = bmp.dim();
    let (sx, sy, sz) = side.dim();
    // Check if the bitmap would fit within the slice at the given coordinates
    if cords.0 + rows > sx || cords.1 + cols > sy {
        return Goodness { matching: 0, total: 1 };
    }
    proof {
        lemma_shape2_product(rows as int, cols as int);
    }
    // Extract the window of the first z-layer
    let mut window_bits = Bitmap::new(rows, cols, false);
    let mut i: usize = 0;
    while i < rows
        invariant
            (rows, cols) == (bmp.rows(), bmp.cols()),
            (sx, sy, sz) == (side.len_x(), side.len_y(), side.len_z()),
            cords.0 + rows <= sx,
            cords.1 + cols <= sy,
            sz > 0,
            i <= rows,
            window_bits.rows() == rows,
            window_bits.cols() == cols,
            is_rect(window_bits@, rows as int, cols as int),
            forall|k: int| 0 <= k < i ==> #[trigger] window_bits@[k] == window(*side, *cords, rows as int, cols as int)[k],
        decreases rows - i,
    {
        let mut j: usize = 0;
        while j < cols
            invariant
                (rows, cols) == (bmp.rows(), bmp.cols()),
                (sx, sy, sz) == (side.len_x(), side.len_y(), side.len_z()),
                cords.0 + rows <= sx,
                cords.1 + cols <= sy,
                sz > 0,
                i < rows,
                j <= cols,
                window_bits.rows() == rows,
                window_bits.cols() == cols,
                is_rect(window_bits@, rows as int, cols as int),
                forall|k: int| 0 <= k < i ==> #[trigger] window_bits@[k] == window(*side, *cords, rows as int, cols as int)[k],
                forall|l: int| 0 <= l < j ==> window_bits@[i as int][l] == side.cell(cords.0 + i, cords.1 + l, 0),
            decreases cols - j,
        {
            let v = side.get(cords.0 + i, cords.1 + j, 0);
            window_bits.set(i, j, v);
            j += 1;
        }
        assert(window_bits@[i as int] =~= window(*side, *cords, rows as int, cols as int)[i as int]);
        i += 1;
    }
    assert(window_bits@ =~= window(*side, *cords, rows as int, cols as int));
    let bits = xor(&window_bits, bmp);

    // Count matching bits (false in XOR result means matching)
    let tot = bits.count(false);
    Goodness { matching: tot, total: rows * cols }
}

/// A product of two `usize` values, plus a third, fits in a `u128`.
pub proof fn lemma_product_fits_u128(a: usize, b: usize)
    ensures
        a * b + 0xffff_ffff_ffff_ffff <= u128::MAX,
{
    assert(a * b + 0xffff_ffff_ffff_ffff <= u128::MAX) by (nonlinear_arith)
        requires
            a <= 0xffff_ffff_ffff_ffff,
            b <= 0xffff_ffff_ffff_ffff,
    ;
}

/// A score with no matching cell is above nothing.
proof fn lemma_zero_not_better(a: Goodness, c: Goodness)
    requires
        a.matching == 0,
    ensures
        !better(a, c),
{
    assert(c.matching * a.total >= 0) by (nonlinear_arith);
}

/// A score above some score is above zero.
proof fn lemma_better_is_positive(g: Goodness, b: Goodness)
    requires
        better(g, b),
        b.total > 0,
    ensures
        positive(g),
{
    assert(g.matching > 0) by (nonlinear_arith)
        requires
            g.matching * (b.total as int) > (b.matching as int) * g.total,
            b.total > 0,
            b.matching >= 0,
            g.total >= 0,
            g.matching >= 0,
    ;
}

/// Whether `g` is above `best`, compared without overflow.
fn is_better(g: Goodness, best: Goodness) -> (r: bool)
    ensures
        r == better(g, best),
{
    proof {
        lemma_product_fits_u128(g.matching, best.total);
        lemma_product_fits_u128(best.matching, g.total);
    }
    (g.matching as u128) * (best.total as u128) > (best.matching as u128) * (g.total as u128)
}

/// The score that site selection gives the candidate `c`: zero where it
/// collides with a site, else its goodness.
pub open spec fn candidate_score(sites: SiteManager, c: Point2, state: Volume, bmp: Bitmap) -> Goodness {
    if collides(sites@, c, bmp) {
        zero_goodness()
    } else {
        goodness_of(c, state, bmp)
    }
}

/// Whether the candidate `k` is the one site selection picks: its score is
/// above zero, no candidate scores above it, and every earlier candidate
/// with a score above zero scores below it.
pub open spec fn is_first_best(
    sites: SiteManager,
    candidates: Seq<Point2>,
    state: Volume,
    bmp: Bitmap,
    k: int,
) -> bool {
    &&& 0 <= k < candidates.len()
    &&& positive(candidate_score(sites, candidates[k], state, bmp))
    &&& forall|j: int|
        0 <= j < candidates.len() ==> !#[trigger] better(
            candidate_score(sites, candidates[j], state, bmp),
            candidate_score(sites, candidates[k], state, bmp),
        )
    &&& forall|j: int|
        0 <= j < k && positive(#[trigger] candidate_score(sites, candidates[j], state, bmp))
            ==> better(
            candidate_score(sites, candidates[k], state, bmp),
            candidate_score(sites, candidates[j], state, bmp),
        )
}

/// Scores that `goodness` can give have at most `total` matching cells.
pub open spec fn proper(g: Goodness) -> bool {
    g.matching <= g.total
}

/// Order facts on scores: a score that is not above `b` is below any score
/// above `b`, and a score at most `b` is at most anything at least `b`.
proof fn lemma_better_order(a: Goodness, b: Goodness, c: Goodness)
    requires
        proper(a),
        proper(b),
        proper(c),
        positive(a),
        b.total > 0,
        !better(a, b),
        better(c, b),
    ensures
        better(c, a),
        !better(a, c),
{
    let (am, at, bm, bt, cm, ct) = (
        a.matching as int,
        a.total as int,
        b.matching as int,
        b.total as int,
        c.matching as int,
        c.total as int,
    );
    assert(cm * at > am * ct) by (nonlinear_arith)
        requires
            0 < am <= at,
            0 <= bm <= bt,
            0 < bt,
            0 <= cm <= ct,
            am * bt <= bm * at,
            cm * bt > bm * ct,
    ;
}

/// Among `candidates`, the first one with the highest score above zero, as
/// site selection scores them; `None` if no candidate scores above zero.
pub fn best_site(sites: &SiteManager, candidates: &Vec<Point2>, state: &Volume, bmp: &Bitmap) -> (r:
    Option<Point2>)
    requires
        forall|j: int|
            0 <= j < candidates@.len() ==> collision_check_fits(sites@, #[trigger] candidates@[j], *bmp),
        forall|j: int|
            0 <= j < candidates@.len() && !collides(sites@, #[trigger] candidates@[j], *bmp)
                ==> goodness_defined(candidates@[j], *state, *bmp),
    ensures
        r is None <==> forall|j: int|
            0 <= j < candidates@.len() ==> !positive(
                #[trigger] candidate_score(*sites, candidates@[j], *state, *bmp),
            ),
        r matches Some(p) ==> exists|k: int|
            is_first_best(*sites, candidates@, *state, *bmp, k) && candidates@[k] == p,
        (exists|j: int|
            0 <= j < candidates@.len() && !collides(sites@, #[trigger] candidates@[j], *bmp)
                && goodness_of(candidates@[j], *state, *bmp).matching > 0) ==> r is Some,
        r matches Some(p) ==> {
            &&& !collides(sites@, p, *bmp)
            &&& goodness_of(p, *state, *bmp).matching > 0
            &&& forall|j: int|
                0 <= j < candidates@.len() && !collides(sites@, #[trigger] candidates@[j], *bmp)
                    ==> !better(goodness_of(candidates@[j], *state, *bmp), goodness_of(p, *state, *bmp))
            &&& exists|k: int|
                0 <= k < candidates@.len() && candidates@[k] == p && forall|j: int|
                    0 <= j < k && !collides(sites@, #[trigger] candidates@[j], *bmp) && goodness_of(
                        candidates@[j],
                        *state,
                        *bmp,
                    ).matching > 0 ==> better(goodness_of(p, *state, *bmp), goodness_of(candidates@[j], *state, *bmp))
        },
{
    let ghost cs = candidates@;
    let (rows, cols) = bmp.dim();
    let mut best_index: Option<usize> = None;
    let mut best_goodness = Goodness { matching: 0, total: 1 };
    let mut i: usize = 0;
    while i < candidates.len()
        invariant
            cs == candidates@,
            (rows, cols) == (bmp.rows(), bmp.cols()),
            forall|j: int| 0 <= j < cs.len() ==> collision_check_fits(sites@, #[trigger] cs[j], *bmp),
            forall|j: int|
                0 <= j < cs.len() && !collides(sites@, #[trigger] cs[j], *bmp)
                    ==> goodness_defined(cs[j], *state, *bmp),
            i <= cs.len(),
            proper(best_goodness),
            best_goodness.total > 0,
            forall|j: int| 0 <= j < i ==> proper(#[trigger] candidate_score(*sites, cs[j], *state, *bmp)),
            best_index is None ==> best_goodness == zero_goodness(),
            best_index is None ==> forall|j: int|
                0 <= j < i ==> !positive(#[trigger] candidate_score(*sites, cs[j], *state, *bmp)),
            best_index matches Some(k) ==> k < i,
            best_index matches Some(k) ==> best_goodness == candidate_score(*sites, cs[k as int], *state, *bmp),
            best_index is Some ==> positive(best_goodness),
            best_index is Some ==> forall|j: int|
                0 <= j < i ==> !#[trigger] better(candidate_score(*sites, cs[j], *state, *bmp), best_goodness),
            best_index matches Some(k) ==> forall|j: int|
                0 <= j < k && positive(#[trigger] candidate_score(*sites, cs[j], *state, *bmp))
                    ==> better(best_goodness, candidate_score(*sites, cs[j], *state, *bmp)),
        decreases cs.len() - i,
    {
        let s = candidates[i];
        let g = if sites.collides_with_sites(s, (rows, cols), bmp) {
            Goodness { matching: 0, total: 1 }
        } else {
            goodness(&s, state, bmp)
        };
        assert(g == candidate_score(*sites, cs[i as int], *state, *bmp));
        if is_better(g, best_goodness) {
            proof {
                assert forall|j: int| #![trigger candidate_score(*sites, cs[j], *state, *bmp)] 0 <= j < i implies !better(
                    candidate_score(*sites, cs[j], *state, *bmp),
                    g,
                ) && (positive(candidate_score(*sites, cs[j], *state, *bmp)) ==> better(
                    g,
                    candidate_score(*sites, cs[j], *state, *bmp),
                )) by {
                    let a = candidate_score(*sites, cs[j], *state, *bmp);
                    if positive(a) {
                        assert(!better(a, best_goodness));
                        lemma_better_order(a, best_goodness, g);
                    } else {
                        lemma_zero_not_better(a, g);
                    }
                }
                lemma_better_is_positive(g, best_goodness);
            }
            best_goodness = g;
            best_index = Some(i);
        }
        i += 1;
    }
    proof {
        assert forall|j: int|
            0 <= j < cs.len() && !collides(sites@, #[trigger] cs[j], *bmp) && goodness_of(
                cs[j],
                *state,
                *bmp,
            ).matching > 0 implies positive(candidate_score(*sites, cs[j], *state, *bmp)) by {
            lemma_candidate_score(*sites, cs[j], *state, *bmp);
        }
        if let Some(k) = best_index {
            lemma_candidate_score(*sites, cs[k as int], *state, *bmp);
            assert forall|j: int|
                0 <= j < cs.len() && !collides(sites@, #[trigger] cs[j], *bmp) implies !better(
                goodness_of(cs[j], *state, *bmp),
                goodness_of(cs[k as int], *state, *bmp),
            ) by {
                lemma_candidate_score(*sites, cs[j], *state, *bmp);
            }
            assert forall|j: int|
                0 <= j < k && !collides(sites@, #[trigger] cs[j], *bmp) && goodness_of(
                    cs[j],
                    *state,
                    *bmp,
                ).matching > 0 implies better(goodness_of(cs[k as int], *state, *bmp), goodness_of(cs[j], *state, *bmp)) by {
                lemma_candidate_score(*sites, cs[j], *state, *bmp);
            }
        }
    }
    match best_index {
        Some(k) => Some(candidates[k]),
        None => None,
    }
}

/// Comparing scores: a score is never above itself; between scores of one
/// total, the one with more agreeing cells is above; a score above zero has
/// at least one agreeing cell.
pub proof fn lemma_better_basics(a: Goodness, b: Goodness)
    ensures
        !better(a, a),
        a.total == b.total && a.total > 0 ==> (better(a, b) <==> a.matching > b.matching),
        positive(a) <==> a.matching > 0,
{
    if a.total == b.total && a.total > 0 {
        let t = a.total as int;
        assert(a.matching * t > b.matching * t <==> a.matching > b.matching) by (nonlinear_arith)
            requires
                t > 0,
        ;
    }
}

/// The least count: any count `r2` that also brings the share of set voxels
/// up to the bitmap's is at least the count `r`.
pub proof fn lemma_flip_count_is_least(r: int, cells: int, set: int, area: int, r2: int)
    requires
        is_flip_count(r, cells, set, area),
        0 <= r,
        0 <= r2,
        area > 0,
        r2 * area >= cells * set,
    ensures
        r <= r2,
{
    if r > 0 {
        assert(r <= r2) by (nonlinear_arith)
            requires
                (r - 1) * area < cells * set,
                r2 * area >= cells * set,
                area > 0,
        ;
    }
}

/// The score that site selection gives a candidate is its goodness where it
/// does not collide with an active site, and zero (never above anything)
/// where it does.
pub proof fn lemma_candidate_score(sites: SiteManager, c: Point2, state: Volume, bmp: Bitmap)
    ensures
        !collides(sites@, c, bmp) ==> candidate_score(sites, c, state, bmp) == goodness_of(c, state, bmp),
        collides(sites@, c, bmp) ==> candidate_score(sites, c, state, bmp).matching == 0
            && candidate_score(sites, c, state, bmp).total == 1,
        positive(candidate_score(sites, c, state, bmp)) <==> !collides(sites@, c, bmp)
            && goodness_of(c, state, bmp).matching > 0,
{
}

/// Site selection picks a site whenever a candidate that does not collide
/// with an active site has a goodness above zero: some candidate then scores
/// above zero, which is the condition under which `best_site` gives `Some`.
pub proof fn lemma_best_site_finds_positive_candidate(
    sites: SiteManager,
    candidates: Seq<Point2>,
    state: Volume,
    bmp: Bitmap,
    k: int,
)
    requires
        0 <= k < candidates.len(),
        !collides(sites@, candidates[k], bmp),
        goodness_of(candidates[k], state, bmp).matching > 0,
    ensures
        !(forall|j: int|
            0 <= j < candidates.len() ==> !positive(
                #[trigger] candidate_score(sites, candidates[j], state, bmp),
            )),
{
    lemma_candidate_score(sites, candidates[k], state, bmp);
}

/// Site selection never picks a candidate that collides with a site.
pub proof fn lemma_best_site_avoids_sites(
    sites: SiteManager,
    candidates: Seq<Point2>,
    state: Volume,
    bmp: Bitmap,
    k: int,
)
    requires
        is_first_best(sites, candidates, state, bmp, k),
    ensures
        !collides(sites@, candidates[k], bmp),
{
}

/// Against a row of set cells, the agreeing cells of `b` are its set cells.
proof fn lemma_row_against_set(a: Seq<bool>, b: Seq<bool>)
    requires
        a.len() == b.len(),
        forall|j: int| 0 <= j < a.len() ==> a[j],
    ensures
        count_in_row(Seq::new(a.len(), |j: int| a[j] != b[j]), false) == count_in_row(b, true),
    decreases a.len(),
{
    if a.len() > 0 {
        let n = (a.len() - 1) as int;
        lemma_row_against_set(a.drop_last(), b.drop_last());
        assert(Seq::new(a.len(), |j: int| a[j] != b[j]).drop_last() =~= Seq::new(
            a.drop_last().len(),
            |j: int| a.drop_last()[j] != b.drop_last()[j],
        ));
    }
}

/// Against a row equal to it, every cell of `b` agrees.
proof fn lemma_row_against_itself(b: Seq<bool>)
    ensures
        count_in_row(Seq::new(b.len(), |j: int| b[j] != b[j]), false) == b.len(),
    decreases b.len(),
{
    if b.len() > 0 {
        lemma_row_against_itself(b.drop_last());
        assert(Seq::new(b.len(), |j: int| b[j] != b[j]).drop_last() =~= Seq::new(
            b.drop_last().len(),
            |j: int| b.drop_last()[j] != b.drop_last()[j],
        ));
    }
}

/// Row by row, the agreeing cells of two grids: against a grid of set cells
/// they are the set cells of `b`; against `b` itself they are all its cells.
proof fn lemma_grid_agreement(a: Seq<Seq<bool>>, b: Seq<Seq<bool>>, rows: int, cols: int)
    requires
        0 <= rows,
        0 <= cols,
        is_rect(a, rows, cols),
        is_rect(b, rows, cols),
    ensures
        (forall|i: int, j: int| 0 <= i < rows && 0 <= j < cols ==> #[trigger] a[i][j]) ==> count_in_grid(
            xor_grid(a, b, rows, cols),
            false,
        ) == count_in_grid(b, true),
        a == b ==> count_in_grid(xor_grid(a, b, rows, cols), false) == rows * cols,
    decreases rows,
{
    if rows > 0 {
        let (a2, b2) = (a.drop_last(), b.drop_last());
        lemma_grid_agreement(a2, b2, rows - 1, cols);
        assert(xor_grid(a, b, rows, cols).drop_last() =~= xor_grid(a2, b2, rows - 1, cols));
        let last = xor_grid(a, b, rows, cols).last();
        assert(last =~= Seq::new(a[rows - 1].len(), |j: int| a[rows - 1][j] != b[rows - 1][j]));
        if forall|i: int, j: int| 0 <= i < rows && 0 <= j < cols ==> #[trigger] a[i][j] {
            assert forall|i: int, j: int| 0 <= i < rows - 1 && 0 <= j < cols implies #[trigger] a2[i][j] by {
                assert(a[i][j]);
            }
            let a_last = a[rows - 1];
            assert forall|j: int| 0 <= j < a_last.len() implies #[trigger] a_last[j] by {
                assert(a[rows - 1][j]);
            }
            lemma_row_against_set(a[rows - 1], b[rows - 1]);
        }
        if a == b {
            lemma_row_against_itself(b[rows - 1]);
            assert((rows - 1) * cols + cols == rows * cols) by (nonlinear_arith);
        }
    } else {
        assert(xor_grid(a, b, rows, cols) =~= Seq::<Seq<bool>>::empty());
        assert(b =~= Seq::<Seq<bool>>::empty());
    }
}

/// Where the bitmap fits and the window of the grid under it is all set,
/// the agreeing cells are the bitmap's set cells.
pub proof fn lemma_goodness_against_set_window(cords: Point2, side: Volume, bmp: Bitmap)
    requires
        bmp.wf(),
        fits_at(cords, side, bmp),
        forall|i: int, j: int|
            0 <= i < bmp.rows() && 0 <= j < bmp.cols() ==> #[trigger] side.cell(
                cords.0 + i,
                cords.1 + j,
                0,
            ),
    ensures
        goodness_of(cords, side, bmp).matching == count_in_grid(bmp@, true),
{
    let (r, c) = (bmp.rows() as int, bmp.cols() as int);
    let w = window(side, cords, r, c);
    assert forall|i: int, j: int| 0 <= i < r && 0 <= j < c implies #[trigger] w[i][j] by {
        assert(side.cell(cords.0 + i, cords.1 + j, 0));
    }
    lemma_shape2_product(r, c);
    lemma_count_in_grid_bound(xor_grid(w, bmp@, r, c), r, c, false);
    assert(xor_grid(w, bmp@, r, c).take(r) =~= xor_grid(w, bmp@, r, c));
    lemma_grid_agreement(w, bmp@, r, c);
}

/// Where the window of the grid under the bitmap equals the bitmap, every
/// cell agrees: the score is `area / area`.
pub proof fn lemma_goodness_of_exact_match(cords: Point2, side: Volume, bmp: Bitmap)
    requires
        bmp.wf(),
        fits_at(cords, side, bmp),
        forall|i: int, j: int|
            0 <= i < bmp.rows() && 0 <= j < bmp.cols() ==> #[trigger] side.cell(
                cords.0 + i,
                cords.1 + j,
                0,
            ) == bmp.cell(i, j),
    ensures
        goodness_of(cords, side, bmp).matching == goodness_of(cords, side, bmp).total,
        goodness_of(cords, side, bmp).total == bmp.rows() * bmp.cols(),
{
    let (r, c) = (bmp.rows() as int, bmp.cols() as int);
    let w = window(side, cords, r, c);
    assert forall|i: int| 0 <= i < r implies #[trigger] w[i] == bmp@[i] by {
        assert forall|j: int| 0 <= j < c implies #[trigger] w[i][j] == bmp@[i][j] by {
            assert(side.cell(cords.0 + i, cords.1 + j, 0) == bmp.cell(i, j));
        }
        assert(w[i] =~= bmp@[i]);
    }
    assert(w =~= bmp@);
    lemma_shape2_product(r, c);
    lemma_grid_agreement(bmp@, bmp@, r, c);
}

/// Cell `(i, j)` of a bitmap placed at `cords` agrees with the first z-layer of `side`.
pub open spec fn agrees_at(cords: Point2, side: Volume, bmp: Bitmap, i: int, j: int) -> bool {
    side.cell(cords.0 + i, cords.1 + j, 0) == bmp.cell(i, j)
}

/// Against an inverted grid, the cells equal to `false` of `a` are the cells
/// equal to `true` of `b`.
proof fn lemma_count_inverted(a: Seq<Seq<bool>>, b: Seq<Seq<bool>>, rows: int, cols: int)
    requires
        0 <= rows,
        is_rect(a, rows, cols),
        is_rect(b, rows, cols),
        forall|i: int, j: int| 0 <= i < rows && 0 <= j < cols ==> #[trigger] b[i][j] == !a[i][j],
    ensures
        count_in_grid(a, false) == count_in_grid(b, true),
    decreases rows,
{
    if rows > 0 {
        lemma_count_inverted(a.drop_last(), b.drop_last(), rows - 1, cols);
        lemma_row_inverted(a[rows - 1], b[rows - 1]);
    }
}

/// Row form of `lemma_count_inverted`.
proof fn lemma_row_inverted(a: Seq<bool>, b: Seq<bool>)
    requires
        a.len() == b.len(),
        forall|j: int| 0 <= j < a.len() ==> #[trigger] b[j] == !a[j],
    ensures
        count_in_row(a, false) == count_in_row(b, true),
    decreases a.len(),
{
    if a.len() > 0 {
        lemma_row_inverted(a.drop_last(), b.drop_last());
    }
}

/// Where the bitmap fits, its score counts the cells `(i, j)` of the bitmap
/// that equal the grid's cell `(cords.0 + i, cords.1 + j, 0)`, out of the
/// bitmap's area; where it does not fit, the score is `0 / 1`.
pub proof fn lemma_goodness_counts_agreement(cords: Point2, side: Volume, bmp: Bitmap)
    requires
        bmp.wf(),
    ensures
        fits_at(cords, side, bmp) ==> goodness_of(cords, side, bmp).matching == count_in_grid(
            Seq::new(
                bmp.rows() as nat,
                |i: int| Seq::new(bmp.cols() as nat, |j: int| agrees_at(cords, side, bmp, i, j)),
            ),
            true,
        ),
        fits_at(cords, side, bmp) ==> goodness_of(cords, side, bmp).total == bmp.rows() * bmp.cols(),
        !fits_at(cords, side, bmp) ==> goodness_of(cords, side, bmp) == (Goodness { matching: 0, total: 1 }),
{
    let (r, c) = (bmp.rows() as int, bmp.cols() as int);
    if fits_at(cords, side, bmp) {
        lemma_shape2_product(r, c);
        let x = xor_grid(window(side, cords, r, c), bmp@, r, c);
        let agree = Seq::new(
            bmp.rows() as nat,
            |i: int| Seq::new(bmp.cols() as nat, |j: int| agrees_at(cords, side, bmp, i, j)),
        );
        assert forall|i: int, j: int| 0 <= i < r && 0 <= j < c implies #[trigger] agree[i][j] == !x[i][j] by {
        }
        lemma_count_inverted(x, agree, r, c);
        lemma_count_in_grid_bound(x, r, c, false);
        assert(x.take(r) =~= x);
    }
}

/// The two by two pattern with every cell set.
pub open spec fn square_pattern() -> Seq<Seq<bool>> {
    seq![seq![true, true], seq![true, true]]
}

/// The three by three pattern with the main diagonal set.
pub open spec fn diagonal_pattern() -> Seq<Seq<bool>> {
    seq![seq![true, false, false], seq![false, true, false], seq![false, false, true]]
}

/// The three by three pattern with every cell but the centre set.
pub open spec fn hollow_square_pattern() -> Seq<Seq<bool>> {
    seq![seq![true, true, true], seq![true, false, true], seq![true, true, true]]
}

/// Whether `v` is the default set of site bitmaps: cross, small square,
/// diagonal line and hollow square, in that order.
pub open spec fn is_default_bitmap_set(v: Seq<Bitmap>) -> bool {
    &&& v.len() == 4
    &&& v[0]@ == cross_pattern() && v[0].rows() == 3 && v[0].cols() == 3
    &&& v[1]@ == square_pattern() && v[1].rows() == 2 && v[1].cols() == 2
    &&& v[2]@ == diagonal_pattern() && v[2].rows() == 3 && v[2].cols() == 3
    &&& v[3]@ == hollow_square_pattern() && v[3].rows() == 3 && v[3].cols() == 3
}

/// Example function to create custom bitmaps for player sites
pub fn create_custom_bitmaps() -> (r: Vec<Bitmap>)
    ensures
        is_default_bitmap_set(r@),
{
    proof {
        lemma_small_shape2_fits(3, 3);
        lemma_small_shape2_fits(2, 2);
    }
    // Simple cross pattern
    let cross_rows = vec![vec![false, true, false], vec![true, true, true], vec![false, true, false]];
    assert(cross_rows@[0]@.len() == 3);
    let cross = Bitmap::from_rows(&cross_rows);
    assert(cross@ =~~= cross_pattern());
    // Small square
    let square_rows = vec![vec![true, true], vec![true, true]];
    assert(square_rows@[0]@.len() == 2);
    let square = Bitmap::from_rows(&square_rows);
    assert(square@ =~~= square_pattern());
    // Diagonal line
    let diagonal_rows = vec![vec![true, false, false], vec![false, true, false], vec![false, false, true]];
    assert(diagonal_rows@[0]@.len() == 3);
    let diagonal = Bitmap::from_rows(&diagonal_rows);
    assert(diagonal@ =~~= diagonal_pattern());
    // Hollow square
    let hollow_rows = vec![vec![true, true, true], vec![true, false, true], vec![true, true, true]];
    assert(hollow_rows@[0]@.len() == 3);
    let hollow = Bitmap::from_rows(&hollow_rows);
    assert(hollow@ =~~= hollow_square_pattern());
    let mut bitmaps: Vec<Bitmap> = Vec::new();
    bitmaps.push(cross);
    bitmaps.push(square);
    bitmaps.push(diagonal);
    bitmaps.push(hollow);
    bitmaps
}

/// The bitmaps for player sites: those loaded from files when there are
/// any, else the default set of `create_custom_bitmaps`.
pub fn bitmaps_or_default(loaded: Option<Vec<Bitmap>>) -> (r: Vec<Bitmap>)
    ensures
        loaded matches Some(v) ==> (v@.len() > 0 ==> r@ == v@),
        match loaded {
            Some(v) => v@.len() == 0,
            None => true,
        } ==> is_default_bitmap_set(r@),
{
    let mut bitmaps: Vec<Bitmap> = Vec::new();
    if let Some(loaded_bitmaps) = loaded {
        bitmaps = loaded_bitmaps;
    }
    // If no bitmaps were loaded from files, use the default ones
    if bitmaps.len() == 0 {
        bitmaps = create_custom_bitmaps();
    }
    bitmaps
}

/// The number of voxels to switch on in a grid of `cells` voxels so that
/// the fraction switched on is at least the fraction `set / area` of set
/// cells in the main bitmap: the least `r` with `r * area >= cells * set`;
/// zero when the bitmap is empty.
pub open spec fn is_flip_count(r: int, cells: int, set: int, area: int) -> bool {
    &&& area == 0 ==> r == 0
    &&& area > 0 ==> r * area >= cells * set && (r == 0 || (r - 1) * area < cells * set)
}

/// How many voxels the start of the game switches on in a cubic grid of side
/// `grid_size`: as many as make the share of set voxels reach the share of
/// set cells in `bmp`.
pub fn flips_needed(bmp: &Bitmap, grid_size: usize) -> (r: usize)
    requires
        grid_size * grid_size * grid_size <= usize::MAX,
    ensures
        is_flip_count(
            r as int,
            grid_size * grid_size * grid_size,
            count_in_grid(bmp@, true) as int,
            bmp.rows() * bmp.cols(),
        ),
        r <= grid_size * grid_size * grid_size,
{
    // Count true values in bmp
    let tot = bmp.count(true);
    let (rows, cols) = bmp.dim();
    proof {
        lemma_shape2_product(rows as int, cols as int);
        assert(0 <= grid_size * grid_size) by (nonlinear_arith);
        assert(grid_size * grid_size <= usize::MAX) by (nonlinear_arith)
            requires
                grid_size * grid_size * grid_size <= usize::MAX,
                grid_size * grid_size >= 0,
        ;
    }
    let area = rows * cols;
    if area == 0 {
        return 0;
    }
    let cells = grid_size * grid_size * grid_size;
    proof {
        crate::pattern::lemma_product_fits_u128(cells, tot);
    }
    let wanted: u128 = (cells as u128) * (tot as u128);
    let q: u128 = (wanted + (area as u128) - 1) / (area as u128);
    proof {
        let n = wanted as int;
        let a = area as int;
        vstd::arithmetic::div_mod::lemma_fundamental_div_mod(n + a - 1, a);
        vstd::arithmetic::div_mod::lemma_mod_bound(n + a - 1, a);
        let rem = (n + a - 1) % a;
        assert(q * a >= n && (q == 0 || (q - 1) * a < n) && q <= cells) by (nonlinear_arith)
            requires
                n + a - 1 == a * q + rem,
                0 <= rem < a,
                0 < a,
                0 <= q,
                n == cells * tot,
                tot <= a,
                0 <= cells,
        ;
    }
    q as usize
}

/// Switches on the voxel at `p` if it is off; says whether it switched it on.
pub fn flip_bit(state: &mut Volume, p: (usize, usize, usize)) -> (r: bool)
    requires
        old(state).contains(p),
    ensures
        r == !old(state).cell(p.0 as int, p.1 as int, p.2 as int),
        r ==> final(state)@ == old(state)@.update(
            p.0 as int,
            old(state)@[p.0 as int].update(
                p.1 as int,
                old(state)@[p.0 as int][p.1 as int].update(p.2 as int, true),
            ),
        ),
        !r ==> final(state)@ == old(state)@,
        count_in_volume(final(state)@, true) == count_in_volume(old(state)@, true) + if r {
            1int
        } else {
            0int
        },
        final(state).len_x() == old(state).len_x(),
        final(state).len_y() == old(state).len_y(),
        final(state).len_z() == old(state).len_z(),
{
    let (x, y, z) = p;
    // Reading the shape makes the cells known to form a box.
    let _ = state.dim();
    if !state.get(x, y, z) {
        proof {
            lemma_volume_switch_on(state@, x as int, y as int, z as int);
        }
        state.set(x, y, z, true);
        true
    } else {
        false
    }
}

} // verus!
