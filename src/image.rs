use vstd::prelude::*;

verus! {

/// One colour pixel, stored blue first as in 8-bit BGR buffers.
#[derive(Clone, Copy, Debug, PartialEq, Eq, Structural)]
pub struct Bgr {
    pub b: u8,
    pub g: u8,
    pub r: u8,
}

/// A dense image of `rows` by `cols` pixels, stored row by row.
#[derive(Clone, Debug)]
pub struct Image<P> {
    pub rows: usize,
    pub cols: usize,
    pub pixels: Vec<P>,
}

/// A single-channel 8-bit image.
pub type GrayImage = Image<u8>;

/// A three-channel 8-bit image.
pub type ColorImage = Image<Bgr>;

impl<P> Image<P> {
    /// The pixel buffer holds exactly one value per position.
    pub open spec fn wf(&self) -> bool {
        self.pixels@.len() == self.rows * self.cols
    }

    /// Two images of the same width and height.
    pub open spec fn same_shape<Q>(&self, other: &Image<Q>) -> bool {
        self.rows == other.rows && self.cols == other.cols
    }

    pub fn new(rows: usize, cols: usize, pixels: Vec<P>) -> (res: Option<Self>)
        ensures
            res is Some <==> pixels@.len() == rows * cols,
            res matches Some(img) ==> img.rows == rows && img.cols == cols && img.pixels@
                == pixels@ && img.wf(),
    {
        match rows.checked_mul(cols) {
            Some(n) => {
                if pixels.len() == n {
                    Some(Image { rows, cols, pixels })
                } else {
                    None
                }
            },
            None => {
                let len = pixels.len();
                assert(len < rows * cols);
                None
            },
        }
    }
}

/// Value of a colour pixel in channel `c` (0 blue, 1 green, 2 red).
pub open spec fn channel_of(p: Bgr, c: int) -> u8 {
    if c == 0 {
        p.b
    } else if c == 1 {
        p.g
    } else {
        p.r
    }
}

/// Reads channel `c` (0 blue, 1 green, 2 red) of a pixel.
pub fn channel(p: Bgr, c: usize) -> (res: u8)
    requires
        c < 3,
    ensures
        res == channel_of(p, c as int),
{
    if c == 0 {
        p.b
    } else if c == 1 {
        p.g
    } else {
        p.r
    }
}

/// Pixel at flat position `p` of an image of `rows` by `cols` pixels moved by
/// `dx` columns and `dy` rows; positions that come from outside the source
/// hold `fill`.
pub open spec fn shifted_at<P>(s: Seq<P>, rows: int, cols: int, dx: int, dy: int, fill: P, p: int) -> P {
    let sr = p / cols - dy;
    let sc = p % cols - dx;
    if 0 <= sr < rows && 0 <= sc < cols {
        s[sr * cols + sc]
    } else {
        fill
    }
}

/// The pixels of an image moved by `dx` columns and `dy` rows.
pub open spec fn shifted<P>(s: Seq<P>, rows: int, cols: int, dx: int, dy: int, fill: P) -> Seq<P> {
    Seq::new(s.len(), |p: int| shifted_at(s, rows, cols, dx, dy, fill, p))
}

proof fn lemma_index_in_range(r: int, c: int, rows: int, cols: int)
    requires
        0 <= r < rows,
        0 <= c < cols,
    ensures
        0 <= r * cols + c < rows * cols,
{
    assert(r * cols + c < rows * cols) by (nonlinear_arith)
        requires
            0 <= r < rows,
            0 <= c < cols,
    ;
    assert(0 <= r * cols) by (nonlinear_arith)
        requires
            0 <= r,
            0 <= c < cols,
    ;
}

/// Moves an image by a whole number of pixels, `dx` to the right and `dy`
/// down: the output pixel at row `r`, column `c` is the source pixel at row
/// `r - dy`, column `c - dx`, or `fill` where that lies outside the source.
pub fn translate<P: Copy>(src: &Image<P>, dx: i64, dy: i64, fill: P) -> (dst: Image<P>)
    requires
        src.wf(),
    ensures
        dst.wf(),
        dst.same_shape(src),
        dst.pixels@ == shifted(src.pixels@, src.rows as int, src.cols as int, dx as int, dy as int, fill),
{
    let n = src.pixels.len();
    let rows = src.rows;
    let cols = src.cols;
    let mut out: Vec<P> = Vec::with_capacity(n);
    let mut p: usize = 0;
    while p < n
        invariant
            n == src.pixels@.len(),
            n == rows * cols,
            rows == src.rows,
            cols == src.cols,
            p <= n,
            out@ == shifted(src.pixels@, rows as int, cols as int, dx as int, dy as int, fill).take(p as int),
        decreases n - p,
    {
        assert(cols > 0) by (nonlinear_arith)
            requires
                p < n,
                n == rows * cols,
        ;
        let r = p / cols;
        let c = p % cols;
        let sr: i128 = r as i128 - dy as i128;
        let sc: i128 = c as i128 - dx as i128;
        if 0 <= sr && sr < rows as i128 && 0 <= sc && sc < cols as i128 {
            proof {
                lemma_index_in_range(sr as int, sc as int, rows as int, cols as int);
            }
            let idx: usize = (sr as usize) * cols + (sc as usize);
            out.push(src.pixels[idx]);
        } else {
            out.push(fill);
        }
        p += 1;
        assert(out@ =~= shifted(src.pixels@, rows as int, cols as int, dx as int, dy as int, fill).take(p as int));
    }
    assert(out@ =~= shifted(src.pixels@, rows as int, cols as int, dx as int, dy as int, fill));
    Image { rows, cols, pixels: out }
}

} // verus!
