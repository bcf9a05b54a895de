use vstd::prelude::*;
use crate::image::{ColorImage, channel, channel_of};
use rand::Rng;
use rand::rngs::StdRng;

verus! {

/// Number of intensity bins that the sampler draws from.
pub const BIN_COUNT: usize = 8;

/// Tent-shaped weight: distance of `val` to the nearer end of
/// `[min_val, max_val]`, measured from `min_val` up to the midpoint and from
/// `max_val` beyond it.
pub open spec fn hat_of(val: int, min_val: int, max_val: int) -> int {
    if 2 * val <= min_val + max_val {
        val - min_val
    } else {
        max_val - val
    }
}

/// Weight of an 8-bit intensity: peaks at mid-grey, vanishes at 0 and 255.
pub open spec fn weight_of(z: int) -> int {
    hat_of(z, 0, 255)
}

/// Tent function on `[min_val, max_val]`, highest at the midpoint.
pub fn hat(val: u32, min_val: u32, max_val: u32) -> (res: u32)
    requires
        min_val <= val <= max_val,
    ensures
        res == hat_of(val as int, min_val as int, max_val as int),
{
    if 2 * (val as u64) <= (min_val as u64) + (max_val as u64) {
        val - min_val
    } else {
        max_val - val
    }
}

/// Weight of each 8-bit intensity, indexed by intensity.
pub fn weight_table() -> (res: Vec<u32>)
    ensures
        res@.len() == 256,
        forall|z: int| 0 <= z < 256 ==> res@[z] == weight_of(z),
{
    let mut w: Vec<u32> = Vec::with_capacity(256);
    let mut z: u32 = 0;
    while z < 256
        invariant
            z <= 256,
            w@.len() == z,
            forall|y: int| 0 <= y < z ==> w@[y] == weight_of(y),
        decreases 256 - z,
    {
        w.push(hat(z, 0, 255));
        z += 1;
    }
    w
}

/// Sum of channel `c` at pixel `p` over the first `k` exposures.
pub open spec fn channel_sum(images: Seq<ColorImage>, c: int, p: int, k: int) -> int
    decreases k,
{
    if k <= 0 {
        0
    } else {
        channel_sum(images, c, p, k - 1) + channel_of(images[k - 1].pixels@[p], c) as int
    }
}

/// Histogram bin of pixel `p`: its channel average over all exposures,
/// rounded down, divided by the bin width.
pub open spec fn bin_of(images: Seq<ColorImage>, c: int, p: int, bin_width: int) -> int {
    (channel_sum(images, c, p, images.len() as int) / images.len() as int) / bin_width
}

/// Pixels among the first `n`, in increasing order, that fall in bin `b`.
pub open spec fn bin_members(images: Seq<ColorImage>, c: int, bin_width: int, b: int, n: int) -> Seq<usize>
    decreases n,
{
    if n <= 0 {
        Seq::empty()
    } else {
        let prev = bin_members(images, c, bin_width, b, n - 1);
        if bin_of(images, c, n - 1, bin_width) == b {
            prev.push((n - 1) as usize)
        } else {
            prev
        }
    }
}

/// A stack of exposures of one common size.
pub open spec fn same_size_stack(images: Seq<ColorImage>) -> bool {
    &&& images.len() > 0
    &&& forall|k: int| 0 <= k < images.len() ==> (#[trigger] images[k]).wf() && images[k].same_shape(&images[0])
}

proof fn lemma_channel_sum_bound(images: Seq<ColorImage>, c: int, p: int, k: int)
    requires
        k >= 0,
    ensures
        0 <= channel_sum(images, c, p, k) <= 255 * k,
    decreases k,
{
    if k > 0 {
        lemma_channel_sum_bound(images, c, p, k - 1);
    }
}

/// Histogram bin of each pixel for channel `c`.
fn pixel_bins(images: &Vec<ColorImage>, c: usize, bin_width: usize) -> (res: Vec<usize>)
    requires
        same_size_stack(images@),
        c < 3,
        1 <= bin_width <= 256,
    ensures
        res@.len() == images@[0].pixels@.len(),
        forall|p: int| 0 <= p < res@.len() ==> res@[p] == bin_of(images@, c as int, p, bin_width as int),
{
    let n = images[0].pixels.len();
    let count = images.len();
    let mut out: Vec<usize> = Vec::with_capacity(n);
    let mut p: usize = 0;
    while p < n
        invariant
            same_size_stack(images@),
            n == images@[0].pixels@.len(),
            count == images@.len(),
            c < 3,
            1 <= bin_width <= 256,
            p <= n,
            out@.len() == p,
            forall|q: int| 0 <= q < p ==> out@[q] == bin_of(images@, c as int, q, bin_width as int),
        decreases n - p,
    {
        let mut sum: u128 = 0;
        let mut k: usize = 0;
        while k < count
            invariant
                same_size_stack(images@),
                n == images@[0].pixels@.len(),
                count == images@.len(),
                c < 3,
                p < n,
                k <= count,
                sum == channel_sum(images@, c as int, p as int, k as int),
            decreases count - k,
        {
            proof {
                lemma_channel_sum_bound(images@, c as int, p as int, k as int);
                assert(images@[k as int].wf() && images@[k as int].same_shape(&images@[0]));
            }
            sum = sum + channel(images[k].pixels[p], c) as u128;
            k += 1;
        }
        proof {
            lemma_channel_sum_bound(images@, c as int, p as int, count as int);
        }
        let avg: u128 = sum / (count as u128);
        assert(avg <= 255) by (nonlinear_arith)
            requires
                avg as int == sum as int / (count as int),
                0 <= sum <= 255 * count,
                count > 0,
        ;
        assert(avg as int / (bin_width as int) <= avg as int) by (nonlinear_arith)
            requires
                avg >= 0,
                bin_width >= 1,
        ;
        out.push((avg / (bin_width as u128)) as usize);
        p += 1;
    }
    out
}

/// Pixel positions of each intensity bin of channel `c`, bin by bin.
pub open spec fn histogram_of(images: Seq<ColorImage>, c: int, bin_num: int) -> Seq<Seq<usize>> {
    Seq::new(
        bin_num as nat,
        |b: int| bin_members(images, c, 256int / bin_num, b, images[0].pixels@.len() as int),
    )
}

/// Views of a sequence of vectors.
pub open spec fn seqs_of(v: Seq<Vec<usize>>) -> Seq<Seq<usize>> {
    Seq::new(v.len(), |i: int| v[i]@)
}

/// Buckets the pixel positions by the average of channel `c` over all
/// exposures: `bin_num` bins of equal width over 0..=255, positions in
/// increasing order within each bin.
pub fn histogram_bins(images: &Vec<ColorImage>, c: usize, bin_num: usize) -> (res: Vec<Vec<usize>>)
    requires
        same_size_stack(images@),
        c < 3,
        1 <= bin_num <= 256,
        256usize % bin_num == 0,
    ensures
        res@.len() == bin_num,
        seqs_of(res@) == histogram_of(images@, c as int, bin_num as int),
{
    let bin_width: usize = 256 / bin_num;
    assert(1 <= bin_width <= 256) by (nonlinear_arith)
        requires
            bin_width as int == 256int / (bin_num as int),
            1 <= bin_num <= 256,
    ;
    let bins = pixel_bins(images, c, bin_width);
    let n = bins.len();
    let ghost hist = histogram_of(images@, c as int, bin_num as int);
    let mut out: Vec<Vec<usize>> = Vec::with_capacity(bin_num);
    let mut b: usize = 0;
    while b < bin_num
        invariant
            bin_width == 256usize / bin_num,
            1 <= bin_width <= 256,
            n == images@[0].pixels@.len(),
            bins@.len() == n,
            forall|p: int| 0 <= p < n ==> bins@[p] == bin_of(images@, c as int, p, bin_width as int),
            hist == histogram_of(images@, c as int, bin_num as int),
            b <= bin_num,
            out@.len() == b,
            forall|a: int| 0 <= a < b ==> (#[trigger] out@[a])@ == hist[a],
        decreases bin_num - b,
    {
        let mut members: Vec<usize> = Vec::new();
        let mut p: usize = 0;
        while p < n
            invariant
                n == bins@.len(),
                forall|q: int| 0 <= q < n ==> bins@[q] == bin_of(images@, c as int, q, bin_width as int),
                p <= n,
                members@ == bin_members(images@, c as int, bin_width as int, b as int, p as int),
            decreases n - p,
        {
            if bins[p] == b {
                members.push(p);
            }
            p += 1;
        }
        out.push(members);
        b += 1;
    }
    assert(seqs_of(out@) =~= hist);
    out
}

/// Positions drawn from bins `0..b`: for each bin in order, the entries
/// that its draws index.
pub open spec fn picked(bins: Seq<Seq<usize>>, draws: Seq<Seq<usize>>, b: int) -> Seq<usize>
    decreases b,
{
    if b <= 0 {
        Seq::empty()
    } else {
        picked(bins, draws, b - 1) + Seq::new(draws[b - 1].len(), |j: int| bins[b - 1][draws[b - 1][j] as int])
    }
}

/// Every draw indexes an entry of its bin.
pub open spec fn draws_in_range(bins: Seq<Seq<usize>>, draws: Seq<Seq<usize>>) -> bool {
    &&& draws.len() == bins.len()
    &&& forall|b: int, j: int|
        0 <= b < draws.len() && 0 <= j < draws[b].len() ==> (#[trigger] draws[b][j]) < bins[b].len()
}

/// Draws for sampling: `per_bin` of them in each non-empty bin, none in an
/// empty one, each indexing an entry of its bin.
pub open spec fn draws_fit(bins: Seq<Seq<usize>>, per_bin: int, draws: Seq<Seq<usize>>) -> bool {
    &&& draws_in_range(bins, draws)
    &&& forall|b: int|
        0 <= b < draws.len() ==> (#[trigger] draws[b]).len() == if bins[b].len() > 0 {
            per_bin
        } else {
            0
        }
}

/// Takes from each bin the entries that its draws index, bin by bin.
pub fn pick_samples(bins: &Vec<Vec<usize>>, draws: &Vec<Vec<usize>>) -> (res: Vec<usize>)
    requires
        draws_in_range(seqs_of(bins@), seqs_of(draws@)),
    ensures
        res@ == picked(seqs_of(bins@), seqs_of(draws@), bins@.len() as int),
{
    let ghost bs = seqs_of(bins@);
    let ghost ds = seqs_of(draws@);
    let mut out: Vec<usize> = Vec::new();
    let mut b: usize = 0;
    while b < bins.len()
        invariant
            bs == seqs_of(bins@),
            ds == seqs_of(draws@),
            draws_in_range(bs, ds),
            b <= bins@.len(),
            out@ == picked(bs, ds, b as int),
        decreases bins@.len() - b,
    {
        let ghost before = out@;
        let mut j: usize = 0;
        while j < draws[b].len()
            invariant
                bs == seqs_of(bins@),
                ds == seqs_of(draws@),
                draws_in_range(bs, ds),
                b < bins@.len(),
                before == picked(bs, ds, b as int),
                j <= ds[b as int].len(),
                out@ == before + Seq::new(j as nat, |i: int| bs[b as int][ds[b as int][i] as int]),
            decreases draws@[b as int]@.len() - j,
        {
            assert(ds[b as int][j as int] < bs[b as int].len());
            let d = draws[b][j];
            out.push(bins[b][d]);
            j += 1;
            assert(out@ =~= before + Seq::new(j as nat, |i: int| bs[b as int][ds[b as int][i] as int]));
        }
        b += 1;
        assert(out@ =~= picked(bs, ds, b as int));
    }
    out
}

#[verifier::external_type_specification]
#[verifier::external_body]
pub struct ExStdRng(StdRng);

/// Relies on rand::Rng::gen_range (rand 0.7): it returns a value of
/// `[low, high)`, and panics when that range is empty, which `requires`
/// rules out.
#[verifier::external_body]
pub fn gen_random_integer(rng: &mut StdRng, min_val: usize, max_val: usize) -> (r: usize)
    requires
        min_val < max_val,
    ensures
        min_val <= r < max_val,
{
    rng.gen_range(min_val, max_val)
}

/// Stratified sampling of pixel positions for channel `c`: positions are
/// bucketed by their channel average into `bin_num` bins, and
/// `sample_num / bin_num` positions are drawn uniformly, with repetition,
/// from each non-empty bin, bin by bin.
pub fn histogram_sampling(
    images: &Vec<ColorImage>,
    c: usize,
    sample_num: usize,
    bin_num: usize,
    rng: &mut StdRng,
) -> (res: Vec<usize>)
    requires
        same_size_stack(images@),
        c < 3,
        1 <= bin_num <= 256,
        256usize % bin_num == 0,
    ensures
        exists|draws: Seq<Seq<usize>>|
            draws_fit(histogram_of(images@, c as int, bin_num as int), (sample_num / bin_num) as int, draws)
                && res@ == picked(histogram_of(images@, c as int, bin_num as int), draws, bin_num as int),
{
    let bins = histogram_bins(images, c, bin_num);
    let per_bin: usize = sample_num / bin_num;
    let ghost bs = seqs_of(bins@);
    let mut draws: Vec<Vec<usize>> = Vec::with_capacity(bin_num);
    let mut b: usize = 0;
    while b < bin_num
        invariant
            bs == seqs_of(bins@),
            bins@.len() == bin_num,
            b <= bin_num,
            draws@.len() == b,
            forall|a: int, j: int|
                0 <= a < b && 0 <= j < draws@[a]@.len() ==> (#[trigger] draws@[a]@[j]) < bs[a].len(),
            forall|a: int|
                0 <= a < b ==> (#[trigger] draws@[a])@.len() == if bs[a].len() > 0 {
                    per_bin as int
                } else {
                    0
                },
        decreases bin_num - b,
    {
        let size = bins[b].len();
        let mut cur: Vec<usize> = Vec::new();
        if size > 0 {
            let mut j: usize = 0;
            while j < per_bin
                invariant
                    size > 0,
                    j <= per_bin,
                    cur@.len() == j,
                    forall|i: int| 0 <= i < j ==> cur@[i] < size,
                decreases per_bin - j,
            {
                let d = gen_random_integer(rng, 0, size);
                cur.push(d);
                j += 1;
            }
        }
        draws.push(cur);
        b += 1;
    }
    let ghost ds = seqs_of(draws@);
    assert(draws_fit(bs, per_bin as int, ds));
    let res = pick_samples(&bins, &draws);
    assert(draws_fit(histogram_of(images@, c as int, bin_num as int), (sample_num / bin_num) as int, ds));
    res
}

/// Intensity and weight of one sampled pixel in one exposure.
#[derive(Clone, Copy, Debug, PartialEq, Eq, Structural)]
pub struct Observation {
    pub z: u8,
    pub weight: u32,
}

/// Observation of channel `c` of exposure `k` at pixel `p`.
pub open spec fn observation_of(images: Seq<ColorImage>, c: int, k: int, p: int) -> Observation {
    let z = channel_of(images[k].pixels@[p], c);
    Observation { z, weight: weight_of(z as int) as u32 }
}

/// `obs[k][i]` is the observation of channel `c` of exposure `k` at the
/// pixel of sample `i`.
pub open spec fn observations_match(images: Seq<ColorImage>, c: int, samples: Seq<usize>, obs: Seq<Vec<Observation>>) -> bool {
    &&& obs.len() == images.len()
    &&& forall|k: int| 0 <= k < obs.len() ==> (#[trigger] obs[k])@.len() == samples.len()
    &&& forall|k: int, i: int|
        0 <= k < obs.len() && 0 <= i < samples.len() ==> (#[trigger] obs[k]@[i]) == observation_of(
            images,
            c,
            k,
            samples[i] as int,
        )
}

/// The data of the fitting rows of the response-curve system: for each
/// exposure `k` and each sample `i`, the intensity `Z` of channel `c` at the
/// sampled pixel and its weight `w(Z)`. Row `(k, i)` of the system reads
/// `w(Z) * g(Z) - w(Z) * ln(E_i) = w(Z) * ln(t_k)`.
pub fn sample_observations(images: &Vec<ColorImage>, c: usize, samples: &Vec<usize>) -> (res: Vec<Vec<Observation>>)
    requires
        same_size_stack(images@),
        c < 3,
        forall|i: int| 0 <= i < samples@.len() ==> #[trigger] samples@[i] < images@[0].pixels@.len(),
    ensures
        observations_match(images@, c as int, samples@, res@),
{
    let table = weight_table();
    let mut out: Vec<Vec<Observation>> = Vec::with_capacity(images.len());
    let mut k: usize = 0;
    while k < images.len()
        invariant
            same_size_stack(images@),
            c < 3,
            forall|i: int| 0 <= i < samples@.len() ==> #[trigger] samples@[i] < images@[0].pixels@.len(),
            table@.len() == 256,
            forall|z: int| 0 <= z < 256 ==> table@[z] == weight_of(z),
            k <= images@.len(),
            out@.len() == k,
            forall|a: int| 0 <= a < k ==> (#[trigger] out@[a])@.len() == samples@.len(),
            forall|a: int, i: int|
                0 <= a < k && 0 <= i < samples@.len() ==> (#[trigger] out@[a]@[i])
                    == observation_of(images@, c as int, a, samples@[i] as int),
        decreases images@.len() - k,
    {
        let mut row: Vec<Observation> = Vec::with_capacity(samples.len());
        let mut i: usize = 0;
        while i < samples.len()
            invariant
                same_size_stack(images@),
                c < 3,
                k < images@.len(),
                forall|j: int| 0 <= j < samples@.len() ==> #[trigger] samples@[j] < images@[0].pixels@.len(),
                table@.len() == 256,
                forall|z: int| 0 <= z < 256 ==> table@[z] == weight_of(z),
                i <= samples@.len(),
                row@.len() == i,
                forall|j: int| 0 <= j < i ==> (#[trigger] row@[j]) == observation_of(images@, c as int, k as int, samples@[j] as int),
            decreases samples@.len() - i,
        {
            assert(images@[k as int].wf() && images@[k as int].same_shape(&images@[0]));
            let z = channel(images[k].pixels[samples[i]], c);
            row.push(Observation { z, weight: table[z as usize] });
            i += 1;
        }
        out.push(row);
        k += 1;
    }
    out
}

/// Number of intensity levels, hence of unknowns of the response curve.
pub const LEVELS: usize = 256;

/// Intensity at which the response curve is pinned to zero.
pub const ANCHOR_LEVEL: usize = 127;

/// One coefficient of a row of the response-curve system.
#[derive(Clone, Copy, Debug, PartialEq, Eq, Structural)]
pub struct Term {
    pub col: usize,
    pub coeff: i64,
}

/// One row of the response-curve system, in integers. Its coefficients are
/// multiplied by the smoothness weight when `lambda_scaled` is set; its right
/// side is `rhs_weight * ln(t[rhs_exposure])`.
#[derive(Clone, Debug)]
pub struct LinearRow {
    pub terms: Vec<Term>,
    pub lambda_scaled: bool,
    pub rhs_weight: i64,
    pub rhs_exposure: usize,
}

/// Rows of the response-curve system of one channel, in their order: the
/// fitting rows (exposure by exposure, sample by sample), the anchor row,
/// then the smoothness rows for levels 1 to 254.
#[derive(Clone, Debug)]
pub struct ResponseSystem {
    pub fit: Vec<LinearRow>,
    pub anchor: LinearRow,
    pub smooth: Vec<LinearRow>,
}

/// Fitting row of sample `i` seen in exposure `k` as `o`:
/// `w(Z) * g(Z) - w(Z) * ln(E_i) = w(Z) * ln(t_k)`.
pub open spec fn is_fit_row(row: LinearRow, o: Observation, k: int, i: int) -> bool {
    &&& row.terms@ == Seq::empty().push(Term { col: o.z as usize, coeff: o.weight as i64 }).push(
        Term { col: (LEVELS + i) as usize, coeff: (-(o.weight as int)) as i64 },
    )
    &&& !row.lambda_scaled
    &&& row.rhs_weight == o.weight as int
    &&& row.rhs_exposure == k
}

/// The row that pins `g(127)` to zero.
pub open spec fn is_anchor_row(row: LinearRow) -> bool {
    &&& row.terms@ == seq![Term { col: ANCHOR_LEVEL, coeff: 1 }]
    &&& !row.lambda_scaled
    &&& row.rhs_weight == 0
    &&& row.rhs_exposure == 0
}

/// Smoothness row at level `z`: `lambda * w(z) * (g(z-1) - 2 g(z) + g(z+1)) = 0`.
pub open spec fn is_smooth_row(row: LinearRow, z: int) -> bool {
    &&& row.terms@ == Seq::empty().push(Term { col: (z - 1) as usize, coeff: weight_of(z) as i64 }).push(
        Term { col: z as usize, coeff: (-2 * weight_of(z)) as i64 },
    ).push(Term { col: (z + 1) as usize, coeff: weight_of(z) as i64 })
    &&& row.lambda_scaled
    &&& row.rhs_weight == 0
    &&& row.rhs_exposure == 0
}

/// `sys` is the system of the observations `obs` of `sample_count` samples:
/// row `k * sample_count + i` fits sample `i` in exposure `k`, then comes the
/// anchor row, then the smoothness rows of levels 1 to 254.
pub open spec fn lays_out(obs: Seq<Vec<Observation>>, sample_count: int, sys: ResponseSystem) -> bool {
    &&& sys.fit@.len() == obs.len() * sample_count
    &&& forall|k: int, i: int|
        0 <= k < obs.len() && 0 <= i < sample_count ==> is_fit_row(
            #[trigger] sys.fit@[k * sample_count + i],
            obs[k]@[i],
            k,
            i,
        )
    &&& is_anchor_row(sys.anchor)
    &&& sys.smooth@.len() == 254
    &&& forall|j: int| 0 <= j < 254 ==> is_smooth_row(#[trigger] sys.smooth@[j], j + 1)
}

proof fn lemma_row_index(k: int, i: int, k2: int, i2: int, s: int)
    requires
        0 <= i < s,
        0 <= i2 < s,
        0 <= k,
        0 <= k2,
        k2 < k || (k2 == k && i2 < i),
    ensures
        0 <= k2 * s + i2 < k * s + i,
{
    assert(0 <= k2 * s) by (nonlinear_arith)
        requires
            0 <= k2,
            0 <= s,
    ;
    if k2 < k {
        assert(k2 * s + i2 < k * s) by (nonlinear_arith)
            requires
                k2 < k,
                0 <= i2 < s,
        ;
    }
}

/// Lays out the response-curve system of one channel from its observations
/// (`obs[k][i]`: sample `i` in exposure `k`), unknowns `g(0..=255)` first and
/// the log irradiance of each sample after them.
pub fn response_system(obs: &Vec<Vec<Observation>>, sample_count: usize) -> (res: ResponseSystem)
    requires
        forall|k: int| 0 <= k < obs@.len() ==> (#[trigger] obs@[k])@.len() == sample_count,
        obs@.len() * sample_count + LEVELS <= usize::MAX,
    ensures
        lays_out(obs@, sample_count as int, res),
{
    let s = sample_count;
    let mut fit: Vec<LinearRow> = Vec::new();
    let mut k: usize = 0;
    while k < obs.len()
        invariant
            s == sample_count,
            forall|a: int| 0 <= a < obs@.len() ==> (#[trigger] obs@[a])@.len() == s,
            obs@.len() * s + LEVELS <= usize::MAX,
            k <= obs@.len(),
            fit@.len() == k * s,
            forall|a: int, i: int| 0 <= a < k && 0 <= i < s ==> is_fit_row(#[trigger] fit@[a * s + i], obs@[a]@[i], a, i),
        decreases obs@.len() - k,
    {
        let mut i: usize = 0;
        while i < s
            invariant
                s == sample_count,
                forall|a: int| 0 <= a < obs@.len() ==> (#[trigger] obs@[a])@.len() == s,
                obs@.len() * s + LEVELS <= usize::MAX,
                k < obs@.len(),
                i <= s,
                fit@.len() == k * s + i,
                forall|a: int, j: int|
                    0 <= a < obs@.len() && 0 <= j < s && (a < k || (a == k && j < i)) ==> is_fit_row(
                        #[trigger] fit@[a * s + j],
                        obs@[a]@[j],
                        a,
                        j,
                    ),
            decreases s - i,
        {
            let o = obs[k][i];
            assert(k * s + i < obs@.len() * s) by (nonlinear_arith)
                requires
                    k < obs@.len(),
                    i < s,
            ;
            let ghost before = fit@;
            let w = o.weight as i64;
            let neg: i64 = -w;
            let terms = vec![Term { col: o.z as usize, coeff: w }, Term { col: LEVELS + i, coeff: neg }];
            assert(terms@ =~= Seq::empty().push(Term { col: o.z as usize, coeff: o.weight as i64 }).push(
                Term { col: (LEVELS + i) as usize, coeff: (-(o.weight as int)) as i64 },
            ));
            fit.push(LinearRow { terms, lambda_scaled: false, rhs_weight: w, rhs_exposure: k });
            proof {
                assert forall|a: int, j: int|
                    0 <= a < obs@.len() && 0 <= j < s && (a < k || (a == k && j < i + 1)) implies is_fit_row(
                        #[trigger] fit@[a * s + j],
                        obs@[a]@[j],
                        a,
                        j,
                    ) by {
                    if a < k || (a == k && j < i) {
                        lemma_row_index(k as int, i as int, a, j, s as int);
                        assert(fit@[a * s + j] == before[a * s + j]);
                    } else {
                        assert(a * s + j == k * s + i);
                    }
                }
            }
            i += 1;
        }
        assert(fit@.len() == (k + 1) * s) by (nonlinear_arith)
            requires
                fit@.len() == k * s + s,
        ;
        k += 1;
    }
    let anchor_terms = vec![Term { col: ANCHOR_LEVEL, coeff: 1 }];
    assert(anchor_terms@ =~= seq![Term { col: ANCHOR_LEVEL, coeff: 1 }]);
    let anchor = LinearRow {
        terms: anchor_terms,
        lambda_scaled: false,
        rhs_weight: 0,
        rhs_exposure: 0,
    };
    let table = weight_table();
    let mut smooth: Vec<LinearRow> = Vec::with_capacity(254);
    let mut z: usize = 1;
    while z < 255
        invariant
            1 <= z <= 255,
            table@.len() == 256,
            forall|y: int| 0 <= y < 256 ==> table@[y] == weight_of(y),
            smooth@.len() == z - 1,
            forall|j: int| 0 <= j < z - 1 ==> is_smooth_row(#[trigger] smooth@[j], j + 1),
        decreases 255 - z,
    {
        let w = table[z] as i64;
        let center: i64 = -2 * w;
        let terms = vec![Term { col: z - 1, coeff: w }, Term { col: z, coeff: center }, Term { col: z + 1, coeff: w }];
        assert(terms@ =~= Seq::empty().push(Term { col: (z - 1) as usize, coeff: weight_of(z as int) as i64 }).push(
            Term { col: z as usize, coeff: (-2 * weight_of(z as int)) as i64 },
        ).push(Term { col: (z + 1) as usize, coeff: weight_of(z as int) as i64 }));
        smooth.push(LinearRow { terms, lambda_scaled: true, rhs_weight: 0, rhs_exposure: 0 });
        z += 1;
    }
    ResponseSystem { fit, anchor, smooth }
}

/// Why a response-curve solve was refused before any system was built.
#[derive(Clone, Copy, Debug, PartialEq, Eq, Structural)]
pub enum SolveError {
    /// No exposure was given.
    NoExposures,
    /// The exposures differ in size.
    IncompatibleGeometry,
    /// The channel index is not 0, 1 or 2.
    InvalidChannel,
}

/// Everything of one channel's solve that is decided in integers: the
/// sampled pixels, what each exposure shows there, and the system's rows.
#[derive(Clone, Debug)]
pub struct ChannelSystem {
    pub samples: Vec<usize>,
    pub observations: Vec<Vec<Observation>>,
    pub system: ResponseSystem,
}

proof fn lemma_picked_len(bins: Seq<Seq<usize>>, per_bin: int, draws: Seq<Seq<usize>>, b: int)
    requires
        draws_fit(bins, per_bin, draws),
        0 <= b <= draws.len(),
        per_bin >= 0,
    ensures
        picked(bins, draws, b).len() <= per_bin * b,
    decreases b,
{
    if b > 0 {
        lemma_picked_len(bins, per_bin, draws, b - 1);
        assert(per_bin * (b - 1) + per_bin == per_bin * b) by (nonlinear_arith);
    }
}

proof fn lemma_picked_origin(bins: Seq<Seq<usize>>, draws: Seq<Seq<usize>>, b: int, i: int) -> (o: (int, int))
    requires
        draws_in_range(bins, draws),
        0 <= b <= draws.len(),
        0 <= i < picked(bins, draws, b).len(),
    ensures
        0 <= o.0 < b,
        0 <= o.1 < draws[o.0].len(),
        draws[o.0][o.1] < bins[o.0].len(),
        picked(bins, draws, b)[i] == bins[o.0][draws[o.0][o.1] as int],
    decreases b,
{
    let prev = picked(bins, draws, b - 1);
    if i < prev.len() {
        lemma_picked_origin(bins, draws, b - 1, i)
    } else {
        (b - 1, i - prev.len())
    }
}

proof fn lemma_bin_members_below(images: Seq<ColorImage>, c: int, w: int, b: int, n: int)
    requires
        n <= usize::MAX,
    ensures
        forall|j: int| 0 <= j < bin_members(images, c, w, b, n).len() ==> #[trigger] bin_members(images, c, w, b, n)[j] < n,
    decreases n,
{
    if n > 0 {
        lemma_bin_members_below(images, c, w, b, n - 1);
        let prev = bin_members(images, c, w, b, n - 1);
        let cur = bin_members(images, c, w, b, n);
        assert forall|j: int| 0 <= j < cur.len() implies #[trigger] cur[j] < n by {
            if j < prev.len() {
                assert(cur[j] == prev[j]);
            } else {
                assert(cur[j] == (n - 1) as usize);
            }
        }
    }
}

fn check_stack(images: &Vec<ColorImage>) -> (res: bool)
    requires
        images@.len() > 0,
        forall|k: int| 0 <= k < images@.len() ==> (#[trigger] images@[k]).wf(),
    ensures
        res == same_size_stack(images@),
{
    let mut k: usize = 0;
    while k < images.len()
        invariant
            images@.len() > 0,
            forall|a: int| 0 <= a < images@.len() ==> (#[trigger] images@[a]).wf(),
            k <= images@.len(),
            forall|a: int| 0 <= a < k ==> (#[trigger] images@[a]).same_shape(&images@[0]),
        decreases images@.len() - k,
    {
        if images[k].rows != images[0].rows || images[k].cols != images[0].cols {
            assert(!images@[k as int].same_shape(&images@[0]));
            return false;
        }
        k += 1;
    }
    true
}

/// Samples channel `c` of a stack of exposures in `BIN_COUNT` intensity
/// bins, reads each exposure at the samples, and lays out the channel's
/// response-curve system.
pub fn prepare_channel(images: &Vec<ColorImage>, c: usize, sample_num: usize, rng: &mut StdRng) -> (res: Result<ChannelSystem, SolveError>)
    requires
        forall|k: int| 0 <= k < images@.len() ==> (#[trigger] images@[k]).wf(),
        images@.len() * sample_num + LEVELS <= usize::MAX,
    ensures
        res == Err::<ChannelSystem, SolveError>(SolveError::InvalidChannel) <==> c >= 3,
        res == Err::<ChannelSystem, SolveError>(SolveError::NoExposures) <==> (c < 3 && images@.len() == 0),
        res == Err::<ChannelSystem, SolveError>(SolveError::IncompatibleGeometry) <==> (c < 3 && images@.len()
            > 0 && !same_size_stack(images@)),
        res matches Ok(cs) ==> {
            &&& exists|draws: Seq<Seq<usize>>|
                draws_fit(histogram_of(images@, c as int, BIN_COUNT as int), (sample_num / BIN_COUNT) as int, draws)
                    && cs.samples@ == picked(histogram_of(images@, c as int, BIN_COUNT as int), draws, BIN_COUNT as int)
            &&& observations_match(images@, c as int, cs.samples@, cs.observations@)
            &&& lays_out(cs.observations@, cs.samples@.len() as int, cs.system)
        },
{
    if c >= 3 {
        return Err(SolveError::InvalidChannel);
    }
    if images.len() == 0 {
        return Err(SolveError::NoExposures);
    }
    if !check_stack(images) {
        return Err(SolveError::IncompatibleGeometry);
    }
    let samples = histogram_sampling(images, c, sample_num, BIN_COUNT, rng);
    let pixel_count = images[0].pixels.len();
    let ghost hist = histogram_of(images@, c as int, BIN_COUNT as int);
    let ghost draws = choose|draws: Seq<Seq<usize>>|
        draws_fit(hist, (sample_num / BIN_COUNT) as int, draws) && samples@ == picked(hist, draws, BIN_COUNT as int);
    proof {
        lemma_picked_len(hist, (sample_num / BIN_COUNT) as int, draws, BIN_COUNT as int);
        assert forall|i: int| 0 <= i < samples@.len() implies #[trigger] samples@[i] < images@[0].pixels@.len() by {
            let (b, j) = lemma_picked_origin(hist, draws, BIN_COUNT as int, i);
            lemma_bin_members_below(images@, c as int, 256int / BIN_COUNT as int, b, images@[0].pixels@.len() as int);
        }
        assert(samples@.len() <= sample_num) by (nonlinear_arith)
            requires
                samples@.len() <= (sample_num / BIN_COUNT) * BIN_COUNT,
                BIN_COUNT == 8,
        ;
        assert(images@.len() * samples@.len() <= images@.len() * sample_num) by (nonlinear_arith)
            requires
                samples@.len() <= sample_num,
        ;
    }
    let observations = sample_observations(images, c, &samples);
    let system = response_system(&observations, samples.len());
    Ok(ChannelSystem { samples, observations, system })
}

} // verus!
