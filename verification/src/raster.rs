//! An RGBA raster held as a flat row-major pixel buffer.

use vstd::prelude::*;

verus! {

/// One pixel: 8-bit red, green, blue and alpha channels.
#[derive(Clone, Copy, PartialEq, Eq, Structural, Debug)]
pub struct Rgba {
    pub r: u8,
    pub g: u8,
    pub b: u8,
    pub a: u8,
}

/// A width x height grid of [`Rgba`] pixels, stored row-major: the pixel at
/// column `x` of row `y` sits at flat index `y * width + x`.
pub struct Raster {
    pub width: usize,
    pub height: usize,
    pub pixels: Vec<Rgba>,
}

impl View for Raster {
    type V = Seq<Rgba>;

    open spec fn view(&self) -> Seq<Rgba> {
        self.pixels@
    }
}

impl Raster {
    /// The buffer holds exactly one pixel per grid cell.
    pub open spec fn wf(self) -> bool {
        self.pixels@.len() == self.width * self.height
    }

    /// A raster of the given dimensions with every pixel set to `fill`.
    pub fn new(width: usize, height: usize, fill: Rgba) -> (r: Raster)
        requires
            width * height <= usize::MAX,
        ensures
            r.wf(),
            r.width == width,
            r.height == height,
            r@.len() == width * height,
            forall|i: int| 0 <= i < r@.len() ==> r@[i] == fill,
    {
        let mut pixels: Vec<Rgba> = Vec::new();
        let n = width * height;
        let mut i: usize = 0;
        while i < n
            invariant
                i <= n,
                pixels@.len() == i,
                forall|j: int| 0 <= j < i ==> pixels@[j] == fill,
            decreases n - i,
        {
            pixels.push(fill);
            i = i + 1;
        }
        Raster { width, height, pixels }
    }

    /// Read the pixel at column `x` of row `y`.
    pub fn get(&self, x: usize, y: usize) -> (p: Rgba)
        requires
            self.wf(),
            x < self.width,
            y < self.height,
        ensures
            p == self@[y * self.width + x],
    {
        let len = self.pixels.len();
        proof {
            crate::raster::lemma_flat_index_in_range(
                self.width as int,
                self.height as int,
                x as int,
                y as int,
            );
        }
        self.pixels[y * self.width + x]
    }

    /// Overwrite the pixel at column `x` of row `y`.
    pub fn set(&mut self, x: usize, y: usize, p: Rgba)
        requires
            old(self).wf(),
            x < old(self).width,
            y < old(self).height,
        ensures
            final(self).wf(),
            final(self).width == old(self).width,
            final(self).height == old(self).height,
            final(self)@ == old(self)@.update(y * old(self).width + x, p),
    {
        let len = self.pixels.len();
        proof {
            crate::raster::lemma_flat_index_in_range(
                self.width as int,
                self.height as int,
                x as int,
                y as int,
            );
        }
        let i = y * self.width + x;
        self.pixels[i] = p;
    }
}

/// A coordinate pair inside the grid maps to a flat index inside the buffer.
pub proof fn lemma_flat_index_in_range(w: int, h: int, x: int, y: int)
    requires
        0 <= x < w,
        0 <= y < h,
    ensures
        0 <= y * w + x < w * h,
{
    assert(0 <= y * w + x < w * h) by (nonlinear_arith)
        requires
            0 <= x < w,
            0 <= y < h,
    ;
}

} // verus!
