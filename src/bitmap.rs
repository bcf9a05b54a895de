use vstd::prelude::*;
use crate::image::{ColorImage, GrayImage, Image};
use crate::gray::{cvt_rgb_image_to_grey, gray_seq};

verus! {

/// Number of values in `s` that are at most `v`.
pub open spec fn count_le(s: Seq<u8>, v: int) -> nat
    decreases s.len(),
{
    if s.len() == 0 {
        0
    } else {
        count_le(s.drop_last(), v) + (if s.last() as int <= v { 1nat } else { 0nat })
    }
}

/// Number of values in `s` equal to `v`.
pub open spec fn count_eq(s: Seq<u8>, v: int) -> nat
    decreases s.len(),
{
    if s.len() == 0 {
        0
    } else {
        count_eq(s.drop_last(), v) + (if s.last() as int == v { 1nat } else { 0nat })
    }
}

/// `m` is the smallest level at or below which lie at least half
/// (rounded down) of the values of `s`.
pub open spec fn is_median(s: Seq<u8>, m: u8) -> bool {
    &&& count_le(s, m as int) >= s.len() / 2
    &&& forall|v: int| 0 <= v < m ==> count_le(s, v) < s.len() / 2
}

/// The first level from `v` on whose cumulative count reaches `half`.
pub open spec fn first_reaching(s: Seq<u8>, half: nat, v: int) -> int
    decreases 255 - v,
{
    if v >= 255 || count_le(s, v) >= half {
        v
    } else {
        first_reaching(s, half, v + 1)
    }
}

/// The median level of a sequence of grey values.
pub open spec fn median_of(s: Seq<u8>) -> u8 {
    first_reaching(s, s.len() / 2, 0) as u8
}

proof fn lemma_count_le_split(s: Seq<u8>, v: int)
    ensures
        count_le(s, v) == count_le(s, v - 1) + count_eq(s, v),
    decreases s.len(),
{
    if s.len() > 0 {
        lemma_count_le_split(s.drop_last(), v);
    }
}

proof fn lemma_count_le_bounds(s: Seq<u8>, v: int)
    ensures
        count_le(s, v) <= s.len(),
        v >= 255 ==> count_le(s, v) == s.len(),
        v < 0 ==> count_le(s, v) == 0,
    decreases s.len(),
{
    if s.len() > 0 {
        lemma_count_le_bounds(s.drop_last(), v);
    }
}

proof fn lemma_count_le_push(s: Seq<u8>, x: u8, v: int)
    ensures
        count_le(s.push(x), v) == count_le(s, v) + (if x as int <= v { 1nat } else { 0nat }),
        count_eq(s.push(x), v) == count_eq(s, v) + (if x as int == v { 1nat } else { 0nat }),
{
    assert(s.push(x).drop_last() =~= s);
}

proof fn lemma_first_reaching(s: Seq<u8>, half: nat, k: int, m: int)
    requires
        0 <= k <= m <= 255,
        count_le(s, m) >= half,
        forall|v: int| k <= v < m ==> count_le(s, v) < half,
    ensures
        first_reaching(s, half, k) == m,
    decreases m - k,
{
    if k < m {
        lemma_first_reaching(s, half, k + 1, m);
    }
}

/// The median grey level of an image: the smallest level at or below which
/// lie at least half of its pixels.
pub fn find_median(img: &GrayImage) -> (res: u8)
    requires
        img.wf(),
    ensures
        res == median_of(img.pixels@),
        is_median(img.pixels@, res),
{
    let ghost s = img.pixels@;
    let n = img.pixels.len();
    let mut hist: Vec<usize> = Vec::new();
    let mut v: usize = 0;
    while v < 256
        invariant
            v <= 256,
            hist@.len() == v,
            forall|j: int| 0 <= j < v ==> hist@[j] == 0,
        decreases 256 - v,
    {
        hist.push(0);
        v += 1;
    }
    let mut i: usize = 0;
    while i < n
        invariant
            n == s.len(),
            s == img.pixels@,
            i <= n,
            hist@.len() == 256,
            forall|j: int| 0 <= j < 256 ==> hist@[j] == count_eq(s.take(i as int), j),
        decreases n - i,
    {
        let x = img.pixels[i];
        proof {
            assert(s.take(i as int + 1) =~= s.take(i as int).push(x));
            assert forall|j: int| 0 <= j < 256 implies count_eq(s.take(i as int + 1), j)
                == count_eq(s.take(i as int), j) + (if x as int == j { 1nat } else { 0nat }) by {
                lemma_count_le_push(s.take(i as int), x, j);
            }
            lemma_count_le_split(s.take(i as int), x as int);
            lemma_count_le_bounds(s.take(i as int), x as int);
        }
        let cur = hist[x as usize];
        hist.set(x as usize, cur + 1);
        i += 1;
    }
    assert(s.take(n as int) =~= s);
    proof {
        lemma_count_le_bounds(s, -1);
    }
    let half: usize = n / 2;
    let mut cum: usize = 0;
    let mut k: usize = 0;
    while k < 256
        invariant
            s == img.pixels@,
            n == s.len(),
            half == s.len() / 2,
            k <= 256,
            hist@.len() == 256,
            forall|j: int| 0 <= j < 256 ==> hist@[j] == count_eq(s, j),
            cum == count_le(s, k as int - 1),
            forall|j: int| 0 <= j < k ==> count_le(s, j) < half,
        decreases 256 - k,
    {
        proof {
            lemma_count_le_split(s, k as int);
            lemma_count_le_bounds(s, k as int);
        }
        cum = cum + hist[k];
        if cum >= half {
            proof {
                lemma_first_reaching(s, half as nat, 0, k as int);
            }
            return k as u8;
        }
        k += 1;
    }
    proof {
        lemma_count_le_bounds(s, 255);
    }
    255
}

/// Bitmap of grey values thresholded at `m`: 255 above it, else 0.
pub open spec fn threshold_seq(g: Seq<u8>, m: u8) -> Seq<u8> {
    Seq::new(g.len(), |i: int| if g[i] > m { 255u8 } else { 0u8 })
}

/// Median threshold bitmap of grey values: 255 above the median, else 0.
pub open spec fn mtb_seq(g: Seq<u8>) -> Seq<u8> {
    threshold_seq(g, median_of(g))
}

/// Exclusion bitmap of grey values: 0 within `offset` of the median, else 255.
pub open spec fn exclusion_seq(g: Seq<u8>, offset: u8) -> Seq<u8> {
    Seq::new(
        g.len(),
        |i: int|
            if -(offset as int) <= g[i] as int - median_of(g) as int <= offset as int {
                0u8
            } else {
                255u8
            },
    )
}

/// Median threshold bitmap of a colour image, taken over its grey levels.
pub fn compute_mtb_image(src: &ColorImage) -> (dst: GrayImage)
    requires
        src.wf(),
    ensures
        dst.wf(),
        dst.same_shape(src),
        dst.pixels@ == mtb_seq(gray_seq(src.pixels@)),
{
    let grey = cvt_rgb_image_to_grey(src);
    let m = find_median(&grey);
    let n = grey.pixels.len();
    let mut out: Vec<u8> = Vec::with_capacity(n);
    let mut i: usize = 0;
    while i < n
        invariant
            n == grey.pixels@.len(),
            m == median_of(grey.pixels@),
            i <= n,
            out@ == mtb_seq(grey.pixels@).take(i as int),
        decreases n - i,
    {
        let v = grey.pixels[i];
        if v > m {
            out.push(255);
        } else {
            out.push(0);
        }
        i += 1;
        assert(out@ =~= mtb_seq(grey.pixels@).take(i as int));
    }
    assert(out@ =~= mtb_seq(grey.pixels@));
    Image { rows: grey.rows, cols: grey.cols, pixels: out }
}

/// Exclusion bitmap of a colour image: 0 where the grey level lies within
/// `offset` of the median, 255 elsewhere.
pub fn compute_exclusive_image(src: &ColorImage, offset: u8) -> (dst: GrayImage)
    requires
        src.wf(),
    ensures
        dst.wf(),
        dst.same_shape(src),
        dst.pixels@ == exclusion_seq(gray_seq(src.pixels@), offset),
{
    let grey = cvt_rgb_image_to_grey(src);
    let m = find_median(&grey);
    let high: u8 = if 255 - m < offset { 255 } else { m + offset };
    let low: u8 = if m < offset { 0 } else { m - offset };
    let n = grey.pixels.len();
    let mut out: Vec<u8> = Vec::with_capacity(n);
    let mut i: usize = 0;
    while i < n
        invariant
            n == grey.pixels@.len(),
            m == median_of(grey.pixels@),
            high as int == if m as int + offset as int > 255 { 255 } else { m as int + offset as int },
            low as int == if m < offset { 0 } else { m as int - offset as int },
            i <= n,
            out@ == exclusion_seq(grey.pixels@, offset).take(i as int),
        decreases n - i,
    {
        let v = grey.pixels[i];
        if v <= high && v >= low {
            out.push(0);
        } else {
            out.push(255);
        }
        i += 1;
        assert(out@ =~= exclusion_seq(grey.pixels@, offset).take(i as int));
    }
    assert(out@ =~= exclusion_seq(grey.pixels@, offset));
    Image { rows: grey.rows, cols: grey.cols, pixels: out }
}

/// Number of positions, among the first `n`, where the two threshold bitmaps
/// disagree while both exclusion bitmaps keep the pixel.
pub open spec fn mismatch_count(am: Seq<u8>, ae: Seq<u8>, bm: Seq<u8>, be: Seq<u8>, n: int) -> nat
    decreases n,
{
    if n <= 0 {
        0
    } else {
        mismatch_count(am, ae, bm, be, n - 1) + (if (am[n - 1] != 0) != (bm[n - 1] != 0)
            && ae[n - 1] != 0 && be[n - 1] != 0 {
            1nat
        } else {
            0nat
        })
    }
}

proof fn lemma_mismatch_bound(am: Seq<u8>, ae: Seq<u8>, bm: Seq<u8>, be: Seq<u8>, n: int)
    requires
        n >= 0,
    ensures
        mismatch_count(am, ae, bm, be, n) <= n,
    decreases n,
{
    if n > 0 {
        lemma_mismatch_bound(am, ae, bm, be, n - 1);
    }
}

/// Disagreement between two exposures at one pyramid level: the number of
/// pixels whose threshold bits differ, counting only pixels that both
/// exclusion bitmaps keep. Lower is better.
pub fn compute_image_similarity(
    a_mtb: &GrayImage,
    a_exor: &GrayImage,
    b_mtb: &GrayImage,
    b_exor: &GrayImage,
) -> (res: usize)
    requires
        a_mtb.pixels@.len() == a_exor.pixels@.len(),
        a_mtb.pixels@.len() == b_mtb.pixels@.len(),
        a_mtb.pixels@.len() == b_exor.pixels@.len(),
    ensures
        res == mismatch_count(
            a_mtb.pixels@,
            a_exor.pixels@,
            b_mtb.pixels@,
            b_exor.pixels@,
            a_mtb.pixels@.len() as int,
        ),
{
    let n = a_mtb.pixels.len();
    let mut count: usize = 0;
    let mut i: usize = 0;
    while i < n
        invariant
            n == a_mtb.pixels@.len(),
            n == a_exor.pixels@.len(),
            n == b_mtb.pixels@.len(),
            n == b_exor.pixels@.len(),
            i <= n,
            count == mismatch_count(
                a_mtb.pixels@,
                a_exor.pixels@,
                b_mtb.pixels@,
                b_exor.pixels@,
                i as int,
            ),
        decreases n - i,
    {
        proof {
            lemma_mismatch_bound(a_mtb.pixels@, a_exor.pixels@, b_mtb.pixels@, b_exor.pixels@, i as int);
        }
        if (a_mtb.pixels[i] != 0) != (b_mtb.pixels[i] != 0) && a_exor.pixels[i] != 0
            && b_exor.pixels[i] != 0 {
            count = count + 1;
        }
        i += 1;
    }
    count
}

proof fn lemma_first_reaching_is_median(s: Seq<u8>, half: nat, k: int)
    requires
        0 <= k <= 255,
        half <= s.len(),
    ensures
        k <= first_reaching(s, half, k) <= 255,
        count_le(s, first_reaching(s, half, k)) >= half,
        forall|v: int| k <= v < first_reaching(s, half, k) ==> count_le(s, v) < half,
    decreases 255 - k,
{
    lemma_count_le_bounds(s, k);
    if k < 255 && count_le(s, k) < half {
        lemma_first_reaching_is_median(s, half, k + 1);
    }
}

/// The median level is the smallest level at or below which lie at least
/// half of the values.
pub proof fn lemma_median_of_is_median(s: Seq<u8>)
    ensures
        is_median(s, median_of(s)),
{
    lemma_first_reaching_is_median(s, s.len() / 2, 0);
}

proof fn lemma_threshold_ones(g: Seq<u8>, m: u8)
    ensures
        count_eq(threshold_seq(g, m), 255) + count_le(g, m as int) == g.len(),
    decreases g.len(),
{
    if g.len() > 0 {
        assert(threshold_seq(g, m).drop_last() =~= threshold_seq(g.drop_last(), m));
        lemma_threshold_ones(g.drop_last(), m);
    }
}

/// No two positions of `s` hold the same value.
pub open spec fn all_distinct(s: Seq<u8>) -> bool {
    forall|i: int, j: int| 0 <= i < j < s.len() ==> s[i] != s[j]
}

proof fn lemma_count_eq_absent(s: Seq<u8>, v: int)
    requires
        forall|i: int| 0 <= i < s.len() ==> s[i] as int != v,
    ensures
        count_eq(s, v) == 0,
    decreases s.len(),
{
    if s.len() > 0 {
        lemma_count_eq_absent(s.drop_last(), v);
    }
}

proof fn lemma_count_eq_distinct(s: Seq<u8>, v: int)
    requires
        all_distinct(s),
    ensures
        count_eq(s, v) <= 1,
    decreases s.len(),
{
    if s.len() > 0 {
        let t = s.drop_last();
        assert(all_distinct(t));
        lemma_count_eq_distinct(t, v);
        if s.last() as int == v {
            assert forall|i: int| 0 <= i < t.len() implies t[i] as int != v by {
                assert(s[i] != s[s.len() - 1]);
            }
            lemma_count_eq_absent(t, v);
        }
    }
}

/// A median threshold bitmap sets at most half of its pixels (rounded up),
/// and together with the pixels at the median level it covers at least that
/// many; where all grey levels differ and there are at least two pixels it
/// sets exactly half of them, rounded up.
pub proof fn lemma_mtb_half(img: ColorImage)
    requires
        img.wf(),
    ensures
        ({
            let g = gray_seq(img.pixels@);
            let n = g.len();
            let ones = count_eq(mtb_seq(g), 255);
            &&& ones <= n - n / 2
            &&& ones + count_eq(g, median_of(g) as int) >= n - n / 2
            &&& (all_distinct(g) && n >= 2 ==> ones == n - n / 2)
        }),
{
    let g = gray_seq(img.pixels@);
    let m = median_of(g);
    lemma_median_of_is_median(g);
    lemma_threshold_ones(g, m);
    lemma_count_le_split(g, m as int);
    lemma_count_le_bounds(g, -1);
    if m > 0 {
        assert(count_le(g, m as int - 1) < g.len() / 2);
    }
    if all_distinct(g) && g.len() >= 2 {
        lemma_count_eq_distinct(g, m as int);
    }
}

} // verus!
