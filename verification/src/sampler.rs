use vstd::prelude::*;

use crate::coco::{Annotation, Bbox};
use crate::color::{mean_color, spec_mean, Rgb};
use crate::error::SampleError;

verus! {

// ------------------------------------------------------------------
// The pixel source
// ------------------------------------------------------------------

/// A decoded image held as plain values: a width, a height, and one byte
/// per channel in row-major order, three channels per pixel.
#[derive(Debug)]
pub struct PixelBuffer {
    width: u32,
    height: u32,
    data: Vec<u8>,
}

impl PixelBuffer {
    /// The buffer always holds exactly three bytes per pixel.
    #[verifier::type_invariant]
    pub closed spec fn inv(self) -> bool {
        self.data@.len() == 3 * (self.width as int) * (self.height as int)
    }

    /// The width in pixels.
    pub closed spec fn spec_width(self) -> u32 {
        self.width
    }

    /// The height in pixels.
    pub closed spec fn spec_height(self) -> u32 {
        self.height
    }

    /// The raw channel bytes, row-major, three per pixel.
    pub closed spec fn spec_data(self) -> Seq<u8> {
        self.data@
    }

    /// The color at column `x`, row `y`.
    pub open spec fn spec_pixel(self, x: int, y: int) -> Rgb
        recommends
            0 <= x < self.spec_width(),
            0 <= y < self.spec_height(),
    {
        let base = 3 * (y * self.spec_width() as int + x);
        Rgb {
            r: self.spec_data()[base],
            g: self.spec_data()[base + 1],
            b: self.spec_data()[base + 2],
        }
    }

    /// Wraps raw decoded bytes. Succeeds exactly when the byte count matches
    /// the dimensions: three bytes per pixel.
    pub fn from_raw(width: u32, height: u32, data: Vec<u8>) -> (res: Option<PixelBuffer>)
        ensures
            (res is Some) <==> (data@.len() == 3 * (width as int) * (height as int)),
            match res {
                Some(buf) => buf.spec_width() == width && buf.spec_height() == height
                    && buf.spec_data() == data@,
                None => true,
            },
    {
        proof {
            assert((3 * (width as int)) * (height as int) <= (3 * 0xffff_ffff) * 0xffff_ffff)
                by (nonlinear_arith)
                requires
                    0 <= (width as int) <= 0xffff_ffff,
                    0 <= (height as int) <= 0xffff_ffff,
            ;
        }
        let expected: u128 = 3u128 * (width as u128) * (height as u128);
        if data.len() as u128 == expected {
            Some(PixelBuffer { width, height, data })
        } else {
            None
        }
    }

    /// The width in pixels.
    pub fn width(&self) -> (w: u32)
        ensures
            w == self.spec_width(),
    {
        self.width
    }

    /// The height in pixels.
    pub fn height(&self) -> (h: u32)
        ensures
            h == self.spec_height(),
    {
        self.height
    }

    /// Reads one pixel. In-bounds coordinates are the caller's obligation,
    /// exactly as for the unclipped inset ring.
    pub fn get_pixel(&self, x: u32, y: u32) -> (p: Rgb)
        requires
            x < self.spec_width(),
            y < self.spec_height(),
        ensures
            p == self.spec_pixel(x as int, y as int),
    {
        // The byte count is a vector length, so the index arithmetic below
        // stays within machine bounds.
        let n = self.data.len();
        proof {
            use_type_invariant(self);
            assert(n as int == 3 * (self.width as int) * (self.height as int));
            assert((y as int) * (self.width as int) + (x as int) < (self.height as int) * (
            self.width as int)) by (nonlinear_arith)
                requires
                    (x as int) < (self.width as int),
                    (y as int) < (self.height as int),
                    0 <= (x as int),
                    0 <= (y as int),
            ;
            assert(3 * ((y as int) * (self.width as int) + (x as int)) + 2 < 3 * (
            self.width as int) * (self.height as int)) by (nonlinear_arith)
                requires
                    (y as int) * (self.width as int) + (x as int) < (self.height as int) * (
                    self.width as int),
            ;
        }
        let wide: u64 = 3 * ((y as u64) * (self.width as u64) + (x as u64));
        let base: usize = wide as usize;
        Rgb { r: self.data[base], g: self.data[base + 1], b: self.data[base + 2] }
    }
}

// ------------------------------------------------------------------
// Ring geometry
// ------------------------------------------------------------------

/// A bounding box from which both rings can be sampled: at least one pixel
/// away from the image's top and left edge, wide and tall enough for the
/// inset ring, and with the whole inset ring inside the image. Anything else
/// is the fatal `InvalidGeometry` condition; the box is rejected before any
/// arithmetic, never silently clipped.
pub open spec fn valid_geometry(b: Bbox, width: int, height: int) -> bool {
    &&& 1 <= b.x
    &&& 1 <= b.y
    &&& 2 <= b.w
    &&& 2 <= b.h
    &&& b.x + b.w <= width
    &&& b.y + b.h <= height
}

/// `n` pixels of one row, starting at column `x0`.
pub open spec fn row_pixels(buf: PixelBuffer, x0: int, y: int, n: nat) -> Seq<Rgb> {
    Seq::new(n, |i: int| buf.spec_pixel(x0 + i, y))
}

/// `n` pixels of one column, starting at row `y0`.
pub open spec fn col_pixels(buf: PixelBuffer, x: int, y0: int, n: nat) -> Seq<Rgb> {
    Seq::new(n, |j: int| buf.spec_pixel(x, y0 + j))
}

/// One row of the outset ring, clipped to the image: of the columns
/// `x0..=x1` at row `y`, exactly the in-bounds coordinates are sampled and
/// the rest are skipped.
pub open spec fn clipped_row(buf: PixelBuffer, x0: int, x1: int, y: int) -> Seq<Rgb> {
    if 0 <= y < buf.spec_height() {
        let lo = if x0 > 0 {
            x0
        } else {
            0
        };
        let hi = if x1 < buf.spec_width() - 1 {
            x1
        } else {
            buf.spec_width() - 1
        };
        if lo <= hi {
            row_pixels(buf, lo, y, (hi - lo + 1) as nat)
        } else {
            Seq::empty()
        }
    } else {
        Seq::empty()
    }
}

/// One column of the outset ring, clipped to the image, spanning rows
/// `y0..=y1` at column `x`.
pub open spec fn clipped_col(buf: PixelBuffer, y0: int, y1: int, x: int) -> Seq<Rgb> {
    if 0 <= x < buf.spec_width() {
        let lo = if y0 > 0 {
            y0
        } else {
            0
        };
        let hi = if y1 < buf.spec_height() - 1 {
            y1
        } else {
            buf.spec_height() - 1
        };
        if lo <= hi {
            col_pixels(buf, x, lo, (hi - lo + 1) as nat)
        } else {
            Seq::empty()
        }
    } else {
        Seq::empty()
    }
}

/// The inset ring: the perimeter of the bbox shrunk inward by one pixel on
/// every side, sampled without bounds clipping — top row, bottom row, left
/// column, right column, the corners counted twice by design.
pub open spec fn inset_pixels(buf: PixelBuffer, b: Bbox) -> Seq<Rgb>
    recommends
        valid_geometry(b, buf.spec_width() as int, buf.spec_height() as int),
{
    let x0 = b.x + 1;
    let y0 = b.y + 1;
    let x1 = b.x + b.w - 1;
    let y1 = b.y + b.h - 1;
    row_pixels(buf, x0, y0, (b.w - 1) as nat) + row_pixels(buf, x0, y1, (b.w - 1) as nat)
        + col_pixels(buf, x0, y0, (b.h - 1) as nat) + col_pixels(buf, x1, y0, (b.h - 1) as nat)
}

/// The outset ring: the perimeter of the bbox grown outward by one pixel on
/// every side, with out-of-image coordinates silently skipped.
pub open spec fn outset_pixels(buf: PixelBuffer, b: Bbox) -> Seq<Rgb>
    recommends
        valid_geometry(b, buf.spec_width() as int, buf.spec_height() as int),
{
    let x0 = b.x - 1;
    let y0 = b.y - 1;
    let x1 = b.x + b.w + 1;
    let y1 = b.y + b.h + 1;
    clipped_row(buf, x0, x1, y0) + clipped_row(buf, x0, x1, y1) + clipped_col(buf, y0, y1, x0)
        + clipped_col(buf, y0, y1, x1)
}

/// Every sample of one annotation: the inset ring followed by the clipped
/// outset ring.
pub open spec fn border_samples(buf: PixelBuffer, b: Bbox) -> Seq<Rgb>
    recommends
        valid_geometry(b, buf.spec_width() as int, buf.spec_height() as int),
{
    inset_pixels(buf, b) + outset_pixels(buf, b)
}

/// The per-annotation mean: the truncated per-channel average over inset and
/// outset samples together.
pub open spec fn spec_border_mean(buf: PixelBuffer, b: Bbox) -> Rgb
    recommends
        valid_geometry(b, buf.spec_width() as int, buf.spec_height() as int),
{
    spec_mean(border_samples(buf, b))
}

/// Law: for a valid bbox the inset ring contributes exactly
/// `2 * (ws + 1) + 2 * (hs + 1)` samples, where `ws = w - 2` and
/// `hs = h - 2` are the inset extents.
pub proof fn lemma_inset_sample_count(buf: PixelBuffer, b: Bbox)
    requires
        valid_geometry(b, buf.spec_width() as int, buf.spec_height() as int),
    ensures
        inset_pixels(buf, b).len() == 2 * ((b.w - 2) + 1) + 2 * ((b.h - 2) + 1),
{
}

// ------------------------------------------------------------------
// Sampling
// ------------------------------------------------------------------

fn push_row(out: &mut Vec<Rgb>, buf: &PixelBuffer, x0: u32, x1: u32, y: u32)
    requires
        x0 <= x1,
        x1 < buf.spec_width(),
        y < buf.spec_height(),
    ensures
        final(out)@ == old(out)@ + row_pixels(*buf, x0 as int, y as int, (x1 - x0 + 1) as nat),
{
    let ghost base = out@;
    for i in x0..(x1 + 1)
        invariant
            x0 <= i <= x1 + 1,
            x1 < buf.spec_width(),
            y < buf.spec_height(),
            out@ == base + row_pixels(*buf, x0 as int, y as int, (i - x0) as nat),
    {
        out.push(buf.get_pixel(i, y));
        proof {
            assert(base + row_pixels(*buf, x0 as int, y as int, (i + 1 - x0) as nat) =~= (base
                + row_pixels(*buf, x0 as int, y as int, (i - x0) as nat)).push(
                buf.spec_pixel(i as int, y as int),
            ));
        }
    }
}

fn push_col(out: &mut Vec<Rgb>, buf: &PixelBuffer, y0: u32, y1: u32, x: u32)
    requires
        y0 <= y1,
        y1 < buf.spec_height(),
        x < buf.spec_width(),
    ensures
        final(out)@ == old(out)@ + col_pixels(*buf, x as int, y0 as int, (y1 - y0 + 1) as nat),
{
    let ghost base = out@;
    for j in y0..(y1 + 1)
        invariant
            y0 <= j <= y1 + 1,
            y1 < buf.spec_height(),
            x < buf.spec_width(),
            out@ == base + col_pixels(*buf, x as int, y0 as int, (j - y0) as nat),
    {
        out.push(buf.get_pixel(x, j));
        proof {
            assert(base + col_pixels(*buf, x as int, y0 as int, (j + 1 - y0) as nat) =~= (base
                + col_pixels(*buf, x as int, y0 as int, (j - y0) as nat)).push(
                buf.spec_pixel(x as int, j as int),
            ));
        }
    }
}

fn push_clipped_row(out: &mut Vec<Rgb>, buf: &PixelBuffer, x0: u32, x1: u64, y: u64)
    requires
        x0 as int <= x1 as int,
    ensures
        final(out)@ == old(out)@ + clipped_row(*buf, x0 as int, x1 as int, y as int),
{
    let ghost base = out@;
    if y >= buf.height() as u64 {
        proof {
            assert(out@ =~= base + clipped_row(*buf, x0 as int, x1 as int, y as int));
        }
        return ;
    }
    let w = buf.width();
    if x0 >= w {
        proof {
            assert(out@ =~= base + clipped_row(*buf, x0 as int, x1 as int, y as int));
        }
        return ;
    }
    let hi: u32 = if x1 >= w as u64 {
        w - 1
    } else {
        x1 as u32
    };
    push_row(out, buf, x0, hi, y as u32);
    proof {
        assert(row_pixels(*buf, x0 as int, y as int, (hi - x0 + 1) as nat) =~= clipped_row(
            *buf,
            x0 as int,
            x1 as int,
            y as int,
        ));
    }
}

fn push_clipped_col(out: &mut Vec<Rgb>, buf: &PixelBuffer, y0: u32, y1: u64, x: u64)
    requires
        y0 as int <= y1 as int,
    ensures
        final(out)@ == old(out)@ + clipped_col(*buf, y0 as int, y1 as int, x as int),
{
    let ghost base = out@;
    if x >= buf.width() as u64 {
        proof {
            assert(out@ =~= base + clipped_col(*buf, y0 as int, y1 as int, x as int));
        }
        return ;
    }
    let h = buf.height();
    if y0 >= h {
        proof {
            assert(out@ =~= base + clipped_col(*buf, y0 as int, y1 as int, x as int));
        }
        return ;
    }
    let hi: u32 = if y1 >= h as u64 {
        h - 1
    } else {
        y1 as u32
    };
    push_col(out, buf, y0, hi, x as u32);
    proof {
        assert(col_pixels(*buf, x as int, y0 as int, (hi - y0 + 1) as nat) =~= clipped_col(
            *buf,
            y0 as int,
            y1 as int,
            x as int,
        ));
    }
}

/// The inset ring's samples of one bbox, in ring order: top row, bottom row,
/// left column, right column.
pub fn inset_samples(b: &Bbox, buf: &PixelBuffer) -> (out: Vec<Rgb>)
    requires
        valid_geometry(*b, buf.spec_width() as int, buf.spec_height() as int),
    ensures
        out@ == inset_pixels(*buf, *b),
{
    let mut out: Vec<Rgb> = Vec::new();
    let x0 = b.x + 1;
    let y0 = b.y + 1;
    let x1 = b.x + b.w - 1;
    let y1 = b.y + b.h - 1;
    push_row(&mut out, buf, x0, x1, y0);
    push_row(&mut out, buf, x0, x1, y1);
    push_col(&mut out, buf, y0, y1, x0);
    push_col(&mut out, buf, y0, y1, x1);
    proof {
        assert(out@ =~= inset_pixels(*buf, *b));
    }
    out
}

/// The outset ring's samples of one bbox, in ring order, with out-of-image
/// coordinates skipped.
pub fn outset_samples(b: &Bbox, buf: &PixelBuffer) -> (out: Vec<Rgb>)
    requires
        valid_geometry(*b, buf.spec_width() as int, buf.spec_height() as int),
    ensures
        out@ == outset_pixels(*buf, *b),
{
    let mut out: Vec<Rgb> = Vec::new();
    let x0 = b.x - 1;
    let y0 = b.y - 1;
    let x1: u64 = b.x as u64 + b.w as u64 + 1;
    let y1: u64 = b.y as u64 + b.h as u64 + 1;
    push_clipped_row(&mut out, buf, x0, x1, y0 as u64);
    push_clipped_row(&mut out, buf, x0, x1, y1);
    push_clipped_col(&mut out, buf, y0, y1, x0 as u64);
    push_clipped_col(&mut out, buf, y0, y1, x1);
    proof {
        assert(out@ =~= outset_pixels(*buf, *b));
    }
    out
}

/// Samples the inset and outset rings around one annotation's bbox and
/// returns the truncated per-channel mean. A bbox that touches the image's
/// top or left edge, is narrower or shorter than two pixels, or whose inset
/// ring would leave the image, is rejected as `InvalidGeometry`; the outset
/// ring is instead clipped silently. A valid bbox always yields samples, so
/// the mean is always defined.
pub fn sample_border_mean(a: &Annotation, buf: &PixelBuffer) -> (res: Result<Rgb, SampleError>)
    ensures
        valid_geometry(a.bbox, buf.spec_width() as int, buf.spec_height() as int) ==> res == Ok::<
            Rgb,
            SampleError,
        >(spec_border_mean(*buf, a.bbox)),
        !valid_geometry(a.bbox, buf.spec_width() as int, buf.spec_height() as int) ==> res == Err::<
            Rgb,
            SampleError,
        >(SampleError::InvalidGeometry),
{
    let b = a.bbox;
    let width = buf.width();
    let height = buf.height();
    let ok = b.x >= 1 && b.y >= 1 && b.w >= 2 && b.h >= 2 && b.x as u64 + b.w as u64
        <= width as u64 && b.y as u64 + b.h as u64 <= height as u64;
    if !ok {
        return Err(SampleError::InvalidGeometry);
    }
    let mut samples = inset_samples(&b, buf);
    let mut outer = outset_samples(&b, buf);
    samples.append(&mut outer);
    proof {
        lemma_inset_sample_count(*buf, b);
        assert(samples@.len() >= 1);
    }
    let m = mean_color(&samples);
    Ok(m)
}

} // verus!
