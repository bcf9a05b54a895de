use vstd::prelude::*;
use crate::image::{Bgr, ColorImage, GrayImage, Image};

verus! {

/// Greg Ward's mix of blue, green and red into one grey level.
pub open spec fn gray_of(b: int, g: int, r: int) -> int {
    (19 * b + 183 * g + 54 * r) / 256
}

/// Grey level of a colour pixel.
pub open spec fn gray_pixel(p: Bgr) -> u8 {
    gray_of(p.b as int, p.g as int, p.r as int) as u8
}

/// Grey levels of a sequence of colour pixels, position by position.
pub open spec fn gray_seq(s: Seq<Bgr>) -> Seq<u8> {
    Seq::new(s.len(), |i: int| gray_pixel(s[i]))
}

/// The grey level of a pixel given by its blue, green and red values.
pub fn mix_rgb_to_gray(b: u16, g: u16, r: u16) -> (res: u8)
    requires
        b <= 255,
        g <= 255,
        r <= 255,
    ensures
        res as int == gray_of(b as int, g as int, r as int),
{
    let s: u32 = 19 * (b as u32) + 183 * (g as u32) + 54 * (r as u32);
    (s / 256) as u8
}

/// Converts a colour image to grey levels, pixel by pixel.
pub fn cvt_rgb_image_to_grey(src: &ColorImage) -> (dst: GrayImage)
    requires
        src.wf(),
    ensures
        dst.wf(),
        dst.same_shape(src),
        dst.pixels@ == gray_seq(src.pixels@),
{
    let n = src.pixels.len();
    let mut out: Vec<u8> = Vec::with_capacity(n);
    let mut i: usize = 0;
    while i < n
        invariant
            n == src.pixels@.len(),
            i <= n,
            out@ == gray_seq(src.pixels@).take(i as int),
        decreases n - i,
    {
        let p = src.pixels[i];
        let v = mix_rgb_to_gray(p.b as u16, p.g as u16, p.r as u16);
        out.push(v);
        i += 1;
        assert(out@ =~= gray_seq(src.pixels@).take(i as int));
    }
    assert(out@ =~= gray_seq(src.pixels@));
    Image { rows: src.rows, cols: src.cols, pixels: out }
}

} // verus!
