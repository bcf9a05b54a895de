use vstd::prelude::*;
use vstd::arithmetic::div_mod::lemma_fundamental_div_mod;
use vstd::arithmetic::power2::{pow2, lemma_pow2_unfold, lemma_pow2_strictly_increases, lemma2_to64, lemma2_to64_rest};
use crate::image::{Bgr, ColorImage, GrayImage, Image, shifted, translate};
use crate::gray::gray_seq;
use crate::bitmap::{
    compute_exclusive_image, compute_image_similarity, compute_mtb_image, exclusion_seq,
    mismatch_count, mtb_seq,
};

verus! {

/// Grey levels within this distance of the median are left out of comparisons.
pub const EXCLUSION_OFFSET: u8 = 4;

/// Deepest pyramid whose offsets still fit in an `i64`.
pub const MAX_PYRAMID_LEVELS: u8 = 63;

/// Threshold and exclusion bitmaps of one exposure at one resolution.
#[derive(Debug)]
pub struct Level {
    pub mtb: GrayImage,
    pub exor: GrayImage,
}

/// Why an alignment request was refused.
#[derive(Clone, Copy, Debug, PartialEq, Eq, Structural)]
pub enum AlignError {
    /// `max_level` is 0 or too deep for the offsets to be represented.
    InvalidLevel,
    /// No exposure was given.
    NoExposures,
    /// The exposures, or their reduced copies, differ in size or in count.
    IncompatibleGeometry,
}

/// Threshold bitmap of a colour image at one level.
pub open spec fn level_mtb(img: ColorImage) -> Seq<u8> {
    mtb_seq(gray_seq(img.pixels@))
}

/// Exclusion bitmap of a colour image at one level.
pub open spec fn level_exor(img: ColorImage) -> Seq<u8> {
    exclusion_seq(gray_seq(img.pixels@), EXCLUSION_OFFSET)
}

/// Horizontal part of the `k`-th candidate move.
pub open spec fn move_x(k: int) -> int {
    if k < 3 {
        -1
    } else if k < 6 {
        0
    } else {
        1
    }
}

/// Vertical part of the `k`-th candidate move.
pub open spec fn move_y(k: int) -> int {
    if k == 0 || k == 4 || k == 7 {
        0
    } else if k == 1 || k == 3 || k == 8 {
        -1
    } else {
        1
    }
}

pub open spec fn abs(x: int) -> int {
    if x < 0 {
        -x
    } else {
        x
    }
}

/// Score of the `k`-th move from the offset `(ox, oy)`: disagreement of the
/// moved candidate bitmaps with the reference ones, plus the length of the move.
pub open spec fn move_score(
    cm: Seq<u8>,
    ce: Seq<u8>,
    pm: Seq<u8>,
    pe: Seq<u8>,
    rows: int,
    cols: int,
    ox: int,
    oy: int,
    k: int,
) -> int {
    mismatch_count(
        shifted(cm, rows, cols, ox + move_x(k), oy + move_y(k), 0u8),
        shifted(ce, rows, cols, ox + move_x(k), oy + move_y(k), 0u8),
        pm,
        pe,
        cm.len() as int,
    ) + abs(move_x(k)) + abs(move_y(k))
}

/// Index of the first best-scoring move among the first `k`.
pub open spec fn best_move_upto(
    cm: Seq<u8>,
    ce: Seq<u8>,
    pm: Seq<u8>,
    pe: Seq<u8>,
    rows: int,
    cols: int,
    ox: int,
    oy: int,
    k: int,
) -> int
    decreases k,
{
    if k <= 1 {
        0
    } else {
        let b = best_move_upto(cm, ce, pm, pe, rows, cols, ox, oy, k - 1);
        if move_score(cm, ce, pm, pe, rows, cols, ox, oy, b) > move_score(
            cm,
            ce,
            pm,
            pe,
            rows,
            cols,
            ox,
            oy,
            k - 1,
        ) {
            k - 1
        } else {
            b
        }
    }
}

/// Offset after one level of search: the incoming offset doubled, plus the
/// first best-scoring of the nine moves around it.
pub open spec fn level_step(cand: ColorImage, pivot: ColorImage, ox: int, oy: int) -> (int, int) {
    let b = best_move_upto(
        level_mtb(cand),
        level_exor(cand),
        level_mtb(pivot),
        level_exor(pivot),
        cand.rows as int,
        cand.cols as int,
        2 * ox,
        2 * oy,
        9,
    );
    (2 * ox + move_x(b), 2 * oy + move_y(b))
}

/// Offset of a candidate pyramid against a reference pyramid once the `j`
/// coarsest of `max_level` levels have been searched.
pub open spec fn offset_after(cand: Seq<ColorImage>, pivot: Seq<ColorImage>, max_level: int, j: int) -> (int, int)
    decreases j,
{
    if j <= 0 {
        (0, 0)
    } else {
        let prev = offset_after(cand, pivot, max_level, j - 1);
        level_step(cand[max_level - j], pivot[max_level - j], prev.0, prev.1)
    }
}

/// The `k`-th candidate move.
fn move_of(k: usize) -> (res: (i64, i64))
    requires
        k < 9,
    ensures
        res.0 == move_x(k as int),
        res.1 == move_y(k as int),
{
    let mx: i64 = if k < 3 {
        -1
    } else if k < 6 {
        0
    } else {
        1
    };
    let my: i64 = if k == 0 || k == 4 || k == 7 {
        0
    } else if k == 1 || k == 3 || k == 8 {
        -1
    } else {
        1
    };
    (mx, my)
}

/// Threshold and exclusion bitmaps of each reduced copy of an exposure,
/// finest first.
pub fn compute_image_pyramid(scaled: &Vec<ColorImage>) -> (res: Vec<Level>)
    requires
        forall|j: int| 0 <= j < scaled@.len() ==> (#[trigger] scaled@[j]).wf(),
    ensures
        res@.len() == scaled@.len(),
        forall|j: int|
            0 <= j < res@.len() ==> {
                &&& (#[trigger] res@[j]).mtb.wf()
                &&& res@[j].exor.wf()
                &&& res@[j].mtb.same_shape(&scaled@[j])
                &&& res@[j].exor.same_shape(&scaled@[j])
                &&& res@[j].mtb.pixels@ == level_mtb(scaled@[j])
                &&& res@[j].exor.pixels@ == level_exor(scaled@[j])
            },
{
    let mut out: Vec<Level> = Vec::new();
    let mut j: usize = 0;
    while j < scaled.len()
        invariant
            j <= scaled@.len(),
            forall|i: int| 0 <= i < scaled@.len() ==> (#[trigger] scaled@[i]).wf(),
            out@.len() == j,
            forall|i: int|
                0 <= i < j ==> {
                    &&& (#[trigger] out@[i]).mtb.wf()
                    &&& out@[i].exor.wf()
                    &&& out@[i].mtb.same_shape(&scaled@[i])
                    &&& out@[i].exor.same_shape(&scaled@[i])
                    &&& out@[i].mtb.pixels@ == level_mtb(scaled@[i])
                    &&& out@[i].exor.pixels@ == level_exor(scaled@[i])
                },
        decreases scaled@.len() - j,
    {
        let mtb = compute_mtb_image(&scaled[j]);
        let exor = compute_exclusive_image(&scaled[j], EXCLUSION_OFFSET);
        out.push(Level { mtb, exor });
        j += 1;
    }
    out
}

/// Bitmaps of the same size as a reference level.
pub open spec fn level_fits(l: Level, rows: int, cols: int) -> bool {
    &&& l.mtb.wf()
    &&& l.exor.wf()
    &&& l.mtb.rows == rows
    &&& l.mtb.cols == cols
    &&& l.exor.rows == rows
    &&& l.exor.cols == cols
}

/// One level of the coarse-to-fine search: doubles the incoming offset and
/// keeps the first of the nine moves around it with the lowest score.
pub fn search_level(cand: &Level, pivot: &Level, offset_x: i64, offset_y: i64) -> (res: (i64, i64))
    requires
        level_fits(*cand, cand.mtb.rows as int, cand.mtb.cols as int),
        level_fits(*pivot, cand.mtb.rows as int, cand.mtb.cols as int),
        -0x4000_0000_0000_0000 < offset_x < 0x4000_0000_0000_0000,
        -0x4000_0000_0000_0000 < offset_y < 0x4000_0000_0000_0000,
    ensures
        ({
            let b = best_move_upto(
                cand.mtb.pixels@,
                cand.exor.pixels@,
                pivot.mtb.pixels@,
                pivot.exor.pixels@,
                cand.mtb.rows as int,
                cand.mtb.cols as int,
                2 * offset_x,
                2 * offset_y,
                9,
            );
            res.0 == 2 * offset_x + move_x(b) && res.1 == 2 * offset_y + move_y(b)
        }),
{
    let ghost cm = cand.mtb.pixels@;
    let ghost ce = cand.exor.pixels@;
    let ghost pm = pivot.mtb.pixels@;
    let ghost pe = pivot.exor.pixels@;
    let ghost rows = cand.mtb.rows as int;
    let ghost cols = cand.mtb.cols as int;
    let ox: i64 = offset_x * 2;
    let oy: i64 = offset_y * 2;
    let mut best: usize = 0;
    let mut best_score: u128 = 0;
    let mut k: usize = 0;
    while k < 9
        invariant
            level_fits(*cand, rows, cols),
            level_fits(*pivot, rows, cols),
            cm == cand.mtb.pixels@,
            ce == cand.exor.pixels@,
            pm == pivot.mtb.pixels@,
            pe == pivot.exor.pixels@,
            ox == 2 * offset_x,
            oy == 2 * offset_y,
            -0x8000_0000_0000_0000 < ox < 0x8000_0000_0000_0000 - 1,
            -0x8000_0000_0000_0000 < oy < 0x8000_0000_0000_0000 - 1,
            k <= 9,
            k >= 1 ==> best == best_move_upto(cm, ce, pm, pe, rows, cols, ox as int, oy as int, k as int),
            k >= 1 ==> best_score == move_score(cm, ce, pm, pe, rows, cols, ox as int, oy as int, best as int),
            best < 9,
        decreases 9 - k,
    {
        let (mx, my) = move_of(k);
        let cur_mtb = translate(&cand.mtb, ox + mx, oy + my, 0u8);
        let cur_exor = translate(&cand.exor, ox + mx, oy + my, 0u8);
        let sim = compute_image_similarity(&cur_mtb, &cur_exor, &pivot.mtb, &pivot.exor);
        let penalty: u128 = (if mx < 0 { 1u128 } else if mx > 0 { 1u128 } else { 0u128 }) + (if my
            < 0 {
            1u128
        } else if my > 0 {
            1u128
        } else {
            0u128
        });
        let score: u128 = sim as u128 + penalty;
        if k == 0 || best_score > score {
            best = k;
            best_score = score;
        }
        k += 1;
    }
    let (bx, by) = move_of(best);
    (ox + bx, oy + by)
}

/// `l` holds the bitmaps of the colour image `img`.
pub open spec fn level_of(l: Level, img: ColorImage) -> bool {
    &&& level_fits(l, img.rows as int, img.cols as int)
    &&& l.mtb.pixels@ == level_mtb(img)
    &&& l.exor.pixels@ == level_exor(img)
}

proof fn lemma_offset_room(j: nat)
    requires
        j < 63,
    ensures
        pow2(j) <= 0x4000_0000_0000_0000,
        pow2(j + 1) == 2 * pow2(j),
{
    lemma2_to64();
    lemma2_to64_rest();
    if j < 62 {
        lemma_pow2_strictly_increases(j, 62);
    }
    lemma_pow2_unfold(j + 1);
}

/// Coarse-to-fine search of the offset that aligns a candidate pyramid with
/// the reference pyramid, from the coarsest level (the last) to the finest.
fn search_offset(
    cand_scaled: &Vec<ColorImage>,
    cand: &Vec<Level>,
    pivot_scaled: &Vec<ColorImage>,
    pivot: &Vec<Level>,
    max_level: u8,
) -> (res: (i64, i64))
    requires
        1 <= max_level <= MAX_PYRAMID_LEVELS,
        cand_scaled@.len() == max_level,
        pivot_scaled@.len() == max_level,
        cand@.len() == max_level,
        pivot@.len() == max_level,
        forall|j: int| 0 <= j < max_level ==> (#[trigger] cand_scaled@[j]).same_shape(&pivot_scaled@[j]),
        forall|j: int| 0 <= j < max_level ==> level_of(#[trigger] cand@[j], cand_scaled@[j]),
        forall|j: int| 0 <= j < max_level ==> level_of(#[trigger] pivot@[j], pivot_scaled@[j]),
    ensures
        (res.0 as int, res.1 as int) == offset_after(cand_scaled@, pivot_scaled@, max_level as int, max_level as int),
        -(pow2(max_level as nat) as int) < res.0 < pow2(max_level as nat),
        -(pow2(max_level as nat) as int) < res.1 < pow2(max_level as nat),
{
    let mut ox: i64 = 0;
    let mut oy: i64 = 0;
    let mut j: u8 = 0;
    proof {
        lemma2_to64();
    }
    while j < max_level
        invariant
            1 <= max_level <= MAX_PYRAMID_LEVELS,
            cand_scaled@.len() == max_level,
            pivot_scaled@.len() == max_level,
            cand@.len() == max_level,
            pivot@.len() == max_level,
            forall|i: int| 0 <= i < max_level ==> (#[trigger] cand_scaled@[i]).same_shape(&pivot_scaled@[i]),
            forall|i: int| 0 <= i < max_level ==> level_of(#[trigger] cand@[i], cand_scaled@[i]),
            forall|i: int| 0 <= i < max_level ==> level_of(#[trigger] pivot@[i], pivot_scaled@[i]),
            j <= max_level,
            (ox as int, oy as int) == offset_after(cand_scaled@, pivot_scaled@, max_level as int, j as int),
            -(pow2(j as nat) as int) < ox < pow2(j as nat),
            -(pow2(j as nat) as int) < oy < pow2(j as nat),
        decreases max_level - j,
    {
        proof {
            lemma_offset_room(j as nat);
        }
        let lvl: usize = (max_level - 1 - j) as usize;
        let next = search_level(&cand[lvl], &pivot[lvl], ox, oy);
        ox = next.0;
        oy = next.1;
        j += 1;
    }
    (ox, oy)
}

/// The exposures share one pyramid depth, and each level of each exposure has
/// the size of the same level of the reference (middle) exposure.
pub open spec fn geometry_ok(pyr: Seq<Vec<ColorImage>>, max_level: int) -> bool {
    forall|i: int|
        0 <= i < pyr.len() ==> {
            &&& (#[trigger] pyr[i])@.len() == max_level
            &&& forall|j: int|
                0 <= j < max_level ==> (#[trigger] pyr[i]@[j]).same_shape(&pyr[pyr.len() as int / 2]@[j])
        }
}

fn check_geometry(pyr: &Vec<Vec<ColorImage>>, max_level: u8) -> (res: bool)
    requires
        pyr@.len() > 0,
    ensures
        res == geometry_ok(pyr@, max_level as int),
{
    let pivot = pyr.len() / 2;
    if pyr[pivot].len() != max_level as usize {
        return false;
    }
    let mut i: usize = 0;
    while i < pyr.len()
        invariant
            pyr@.len() > 0,
            pivot == pyr@.len() / 2,
            pyr@[pivot as int]@.len() == max_level,
            i <= pyr@.len(),
            forall|a: int|
                0 <= a < i ==> {
                    &&& (#[trigger] pyr@[a])@.len() == max_level
                    &&& forall|j: int|
                        0 <= j < max_level ==> (#[trigger] pyr@[a]@[j]).same_shape(&pyr@[pivot as int]@[j])
                },
        decreases pyr@.len() - i,
    {
        if pyr[i].len() != max_level as usize {
            return false;
        }
        let mut j: usize = 0;
        while j < max_level as usize
            invariant
                pyr@.len() > 0,
                pivot == pyr@.len() / 2,
                pyr@[pivot as int]@.len() == max_level,
                i < pyr@.len(),
                pyr@[i as int]@.len() == max_level,
                j <= max_level,
                forall|b: int| 0 <= b < j ==> (#[trigger] pyr@[i as int]@[b]).same_shape(&pyr@[pivot as int]@[b]),
            decreases max_level - j,
        {
            if pyr[i][j].rows != pyr[pivot][j].rows || pyr[i][j].cols != pyr[pivot][j].cols {
                return false;
            }
            j += 1;
        }
        i += 1;
    }
    true
}

/// The black pixel that fills what a translation uncovers.
pub open spec fn black() -> Bgr {
    Bgr { b: 0, g: 0, r: 0 }
}

/// Offset that aligns exposure `i` with the reference exposure.
pub open spec fn exposure_offset(pyr: Seq<Vec<ColorImage>>, max_level: int, i: int) -> (int, int) {
    offset_after(pyr[i]@, pyr[pyr.len() as int / 2]@, max_level, max_level)
}

/// Pixels of the aligned exposure `i`: the reference exposure as it is, each
/// other one moved by its offset.
pub open spec fn aligned_pixels(pyr: Seq<Vec<ColorImage>>, max_level: int, i: int) -> Seq<Bgr> {
    let img = pyr[i]@[0];
    if i == pyr.len() as int / 2 {
        img.pixels@
    } else {
        shifted(
            img.pixels@,
            img.rows as int,
            img.cols as int,
            exposure_offset(pyr, max_level, i).0,
            exposure_offset(pyr, max_level, i).1,
            black(),
        )
    }
}

/// Aligns a stack of exposures on its middle one by median threshold bitmaps.
///
/// `pyramids[i]` holds exposure `i` at full resolution first, then copies
/// reduced by successive halvings, `max_level` images in all. Each exposure
/// but the middle one is moved by the offset found from the coarsest level to
/// the finest; the middle one is passed through.
pub fn align(pyramids: &Vec<Vec<ColorImage>>, max_level: u8) -> (res: Result<Vec<ColorImage>, AlignError>)
    requires
        forall|i: int, j: int|
            0 <= i < pyramids@.len() && 0 <= j < pyramids@[i]@.len() ==> (#[trigger] pyramids@[i]@[j]).wf(),
    ensures
        res == Err::<Vec<ColorImage>, AlignError>(AlignError::InvalidLevel) <==> (max_level == 0
            || max_level > MAX_PYRAMID_LEVELS),
        res == Err::<Vec<ColorImage>, AlignError>(AlignError::NoExposures) <==> (1 <= max_level
            <= MAX_PYRAMID_LEVELS && pyramids@.len() == 0),
        res == Err::<Vec<ColorImage>, AlignError>(AlignError::IncompatibleGeometry) <==> (1
            <= max_level <= MAX_PYRAMID_LEVELS && pyramids@.len() > 0 && !geometry_ok(
            pyramids@,
            max_level as int,
        )),
        res is Ok ==> geometry_ok(pyramids@, max_level as int),
        res matches Ok(out) ==> {
            &&& out@.len() == pyramids@.len()
            &&& forall|i: int|
                0 <= i < out@.len() ==> {
                    &&& (#[trigger] out@[i]).wf()
                    &&& out@[i].same_shape(&pyramids@[i]@[0])
                    &&& out@[i].pixels@ == aligned_pixels(pyramids@, max_level as int, i)
                }
        },
{
    if max_level == 0 || max_level > MAX_PYRAMID_LEVELS {
        return Err(AlignError::InvalidLevel);
    }
    if pyramids.len() == 0 {
        return Err(AlignError::NoExposures);
    }
    if !check_geometry(pyramids, max_level) {
        return Err(AlignError::IncompatibleGeometry);
    }
    let n = pyramids.len();
    let pivot = n / 2;
    assert(pyramids@[pivot as int]@.len() == max_level);
    let pivot_levels = compute_image_pyramid(&pyramids[pivot]);
    let mut out: Vec<ColorImage> = Vec::new();
    let mut i: usize = 0;
    while i < n
        invariant
            n == pyramids@.len(),
            n > 0,
            pivot == n / 2,
            1 <= max_level <= MAX_PYRAMID_LEVELS,
            geometry_ok(pyramids@, max_level as int),
            forall|a: int, j: int|
                0 <= a < pyramids@.len() && 0 <= j < pyramids@[a]@.len() ==> (#[trigger] pyramids@[a]@[j]).wf(),
            pivot_levels@.len() == max_level,
            forall|j: int| 0 <= j < max_level ==> level_of(#[trigger] pivot_levels@[j], pyramids@[pivot as int]@[j]),
            i <= n,
            out@.len() == i,
            forall|a: int|
                0 <= a < i ==> {
                    &&& (#[trigger] out@[a]).wf()
                    &&& out@[a].same_shape(&pyramids@[a]@[0])
                    &&& out@[a].pixels@ == aligned_pixels(pyramids@, max_level as int, a)
                },
        decreases n - i,
    {
        assert(pyramids@[i as int]@.len() == max_level);
        let src = &pyramids[i][0];
        if i == pivot {
            let pixels = src.pixels.clone();
            assert(pixels@ =~= src.pixels@);
            out.push(Image { rows: src.rows, cols: src.cols, pixels });
        } else {
            let levels = compute_image_pyramid(&pyramids[i]);
            let (dx, dy) = search_offset(&pyramids[i], &levels, &pyramids[pivot], &pivot_levels, max_level);
            out.push(translate(src, dx, dy, Bgr { b: 0, g: 0, r: 0 }));
        }
        i += 1;
    }
    Ok(out)
}

proof fn lemma_shift_zero<P>(s: Seq<P>, rows: int, cols: int, fill: P)
    requires
        s.len() == rows * cols,
        rows >= 0,
        cols >= 0,
    ensures
        shifted(s, rows, cols, 0, 0, fill) == s,
{
    assert forall|p: int| 0 <= p < s.len() implies #[trigger] shifted(s, rows, cols, 0, 0, fill)[p] == s[p] by {
        assert(cols > 0) by (nonlinear_arith)
            requires
                0 <= p < s.len(),
                s.len() == rows * cols,
                rows >= 0,
        ;
        lemma_fundamental_div_mod(p, cols);
        let r = p / cols;
        let c = p % cols;
        assert(r < rows) by (nonlinear_arith)
            requires
                p == cols * r + c,
                0 <= c,
                p < rows * cols,
                cols > 0,
        ;
        assert(r >= 0) by (nonlinear_arith)
            requires
                p == cols * r + c,
                c < cols,
                p >= 0,
                cols > 0,
        ;
        assert(r * cols + c == p) by (nonlinear_arith)
            requires
                p == cols * r + c,
        ;
    }
    assert(shifted(s, rows, cols, 0, 0, fill) =~= s);
}

proof fn lemma_mismatch_self(m: Seq<u8>, e: Seq<u8>, n: int)
    ensures
        mismatch_count(m, e, m, e, n) == 0,
    decreases n,
{
    if n > 0 {
        lemma_mismatch_self(m, e, n - 1);
    }
}

proof fn lemma_best_is_min(
    cm: Seq<u8>,
    ce: Seq<u8>,
    pm: Seq<u8>,
    pe: Seq<u8>,
    rows: int,
    cols: int,
    ox: int,
    oy: int,
    k: int,
)
    requires
        k >= 1,
    ensures
        0 <= best_move_upto(cm, ce, pm, pe, rows, cols, ox, oy, k) < k,
        forall|j: int|
            0 <= j < k ==> move_score(cm, ce, pm, pe, rows, cols, ox, oy, best_move_upto(cm, ce, pm, pe, rows, cols, ox, oy, k))
                <= #[trigger] move_score(cm, ce, pm, pe, rows, cols, ox, oy, j),
    decreases k,
{
    if k > 1 {
        lemma_best_is_min(cm, ce, pm, pe, rows, cols, ox, oy, k - 1);
    }
}

/// Aligning an exposure with itself moves it by nothing: the offset is zero
/// after every level of the search.
pub proof fn lemma_self_alignment(pyramid: Seq<ColorImage>, max_level: int, j: int)
    requires
        0 <= j <= max_level <= pyramid.len(),
        forall|i: int| 0 <= i < pyramid.len() ==> (#[trigger] pyramid[i]).wf(),
    ensures
        offset_after(pyramid, pyramid, max_level, j) == (0int, 0int),
    decreases j,
{
    if j > 0 {
        lemma_self_alignment(pyramid, max_level, j - 1);
        let img = pyramid[max_level - j];
        let cm = level_mtb(img);
        let ce = level_exor(img);
        let rows = img.rows as int;
        let cols = img.cols as int;
        lemma_shift_zero(cm, rows, cols, 0u8);
        lemma_shift_zero(ce, rows, cols, 0u8);
        lemma_mismatch_self(cm, ce, cm.len() as int);
        assert(move_score(cm, ce, cm, ce, rows, cols, 0, 0, 4) == 0);
        lemma_best_is_min(cm, ce, cm, ce, rows, cols, 0, 0, 9);
        let b = best_move_upto(cm, ce, cm, ce, rows, cols, 0, 0, 9);
        assert(move_score(cm, ce, cm, ce, rows, cols, 0, 0, b) <= 0);
        assert(b == 4);
    }
}

/// Two pyramids of `max_level` images whose levels match in size.
pub open spec fn pyramids_match(cand: Seq<ColorImage>, pivot: Seq<ColorImage>, max_level: int) -> bool {
    &&& cand.len() == max_level
    &&& pivot.len() == max_level
    &&& forall|j: int| 0 <= j < max_level ==> (#[trigger] cand[j]).same_shape(&pivot[j])
}

/// Offset that aligns one exposure with a reference exposure, each given as
/// its full-resolution image followed by successively halved copies.
pub fn find_offset(cand: &Vec<ColorImage>, pivot: &Vec<ColorImage>, max_level: u8) -> (res: Result<(i64, i64), AlignError>)
    requires
        forall|j: int| 0 <= j < cand@.len() ==> (#[trigger] cand@[j]).wf(),
        forall|j: int| 0 <= j < pivot@.len() ==> (#[trigger] pivot@[j]).wf(),
    ensures
        res == Err::<(i64, i64), AlignError>(AlignError::InvalidLevel) <==> (max_level == 0
            || max_level > MAX_PYRAMID_LEVELS),
        res == Err::<(i64, i64), AlignError>(AlignError::IncompatibleGeometry) <==> (1
            <= max_level <= MAX_PYRAMID_LEVELS && !pyramids_match(cand@, pivot@, max_level as int)),
        res is Ok <==> (1 <= max_level <= MAX_PYRAMID_LEVELS && pyramids_match(
            cand@,
            pivot@,
            max_level as int,
        )),
        res matches Ok(o) ==> (o.0 as int, o.1 as int) == offset_after(
            cand@,
            pivot@,
            max_level as int,
            max_level as int,
        ),
        res matches Ok(o) ==> -(pow2(max_level as nat) as int) < o.0 < pow2(max_level as nat) && -(pow2(
            max_level as nat,
        ) as int) < o.1 < pow2(max_level as nat),
{
    if max_level == 0 || max_level > MAX_PYRAMID_LEVELS {
        return Err(AlignError::InvalidLevel);
    }
    if cand.len() != max_level as usize || pivot.len() != max_level as usize {
        return Err(AlignError::IncompatibleGeometry);
    }
    let mut j: usize = 0;
    while j < cand.len()
        invariant
            1 <= max_level <= MAX_PYRAMID_LEVELS,
            cand@.len() == max_level,
            pivot@.len() == max_level,
            j <= max_level,
            forall|b: int| 0 <= b < j ==> (#[trigger] cand@[b]).same_shape(&pivot@[b]),
        decreases cand@.len() - j,
    {
        if cand[j].rows != pivot[j].rows || cand[j].cols != pivot[j].cols {
            assert(!cand@[j as int].same_shape(&pivot@[j as int]));
            return Err(AlignError::IncompatibleGeometry);
        }
        j += 1;
    }
    let cand_levels = compute_image_pyramid(cand);
    let pivot_levels = compute_image_pyramid(pivot);
    Ok(search_offset(cand, &cand_levels, pivot, &pivot_levels, max_level))
}

/// An exposure identical to the reference one, level by level, leaves the
/// alignment unchanged.
pub proof fn lemma_align_identical_unchanged(pyr: Seq<Vec<ColorImage>>, max_level: int, i: int)
    requires
        0 <= i < pyr.len(),
        geometry_ok(pyr, max_level),
        max_level >= 1,
        pyr[i]@ == pyr[pyr.len() as int / 2]@,
        forall|j: int| 0 <= j < max_level ==> (#[trigger] pyr[i]@[j]).wf(),
    ensures
        aligned_pixels(pyr, max_level, i) == pyr[i]@[0].pixels@,
{
    let p = pyr[i]@;
    lemma_self_alignment(p, max_level, max_level);
    let img = p[0];
    lemma_shift_zero(img.pixels@, img.rows as int, img.cols as int, black());
}

/// A stack of identical exposures comes out of the alignment unchanged: the
/// offset is zero at every level, so every exposure keeps its pixels.
pub proof fn lemma_align_identical_stack(pyr: Seq<Vec<ColorImage>>, max_level: int)
    requires
        pyr.len() > 0,
        max_level >= 1,
        geometry_ok(pyr, max_level),
        forall|i: int| 0 <= i < pyr.len() ==> (#[trigger] pyr[i])@ == pyr[0]@,
        forall|j: int| 0 <= j < max_level ==> (#[trigger] pyr[0]@[j]).wf(),
    ensures
        forall|i: int| 0 <= i < pyr.len() ==> #[trigger] aligned_pixels(pyr, max_level, i) == pyr[i]@[0].pixels@,
{
    assert forall|i: int| 0 <= i < pyr.len() implies #[trigger] aligned_pixels(pyr, max_level, i) == pyr[i]@[0].pixels@ by {
        assert(pyr[i]@ == pyr[0]@);
        assert(pyr[pyr.len() as int / 2]@ == pyr[0]@);
        lemma_align_identical_unchanged(pyr, max_level, i);
    }
}

} // verus!
