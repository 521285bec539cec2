use vstd::prelude::*;

verus! {

/// One pixel: four 8-bit channels. Alpha 0 means fully transparent and is
/// treated as "already background" everywhere.
#[derive(Debug, Clone, Copy, PartialEq, Eq, Structural)]
pub struct Pixel {
    pub r: u8,
    pub g: u8,
    pub b: u8,
    pub a: u8,
}

impl Pixel {
    pub open spec fn is_transparent_spec(self) -> bool {
        self.a == 0
    }
}

/// A decoded RGBA raster: `pixels` holds the rows top to bottom, each row
/// left to right, so the pixel at column `x` of row `y` sits at index
/// `y * width + x`.
#[derive(Debug)]
pub struct Raster {
    pub width: u32,
    pub height: u32,
    pub pixels: Vec<Pixel>,
}

impl Raster {
    pub open spec fn wf(self) -> bool {
        self.pixels@.len() == self.width * self.height
    }

    pub open spec fn idx_spec(self, x: u32, y: u32) -> int {
        y * self.width + x
    }

    pub open spec fn pixel_at(self, x: u32, y: u32) -> Pixel {
        self.pixels@[self.idx_spec(x, y)]
    }

    pub proof fn lemma_idx_in_range(self, x: u32, y: u32)
        requires
            self.wf(),
            x < self.width,
            y < self.height,
        ensures
            0 <= self.idx_spec(x, y) < self.pixels@.len(),
    {
        assert(y * self.width + x < self.width * self.height) by (nonlinear_arith)
            requires
                x < self.width,
                y < self.height,
        ;
    }

    /// Builds a raster from its dimensions and a row-major pixel vector.
    pub fn new(width: u32, height: u32, pixels: Vec<Pixel>) -> (r: Raster)
        requires
            pixels@.len() == width * height,
        ensures
            r.wf(),
            r.width == width,
            r.height == height,
            r.pixels@ == pixels@,
    {
        Raster { width, height, pixels }
    }

    pub fn get(&self, x: u32, y: u32) -> (p: Pixel)
        requires
            self.wf(),
            x < self.width,
            y < self.height,
        ensures
            p == self.pixel_at(x, y),
    {
        proof {
            self.lemma_idx_in_range(x, y);
        }
        // the vector length bounds the index, so it fits a usize
        let n: usize = self.pixels.len();
        let i: usize = (y as usize) * (self.width as usize) + (x as usize);
        self.pixels[i]
    }

    pub fn set(&mut self, x: u32, y: u32, p: Pixel)
        requires
            old(self).wf(),
            x < old(self).width,
            y < old(self).height,
        ensures
            final(self).wf(),
            final(self).width == old(self).width,
            final(self).height == old(self).height,
            final(self).pixels@ == old(self).pixels@.update(old(self).idx_spec(x, y), p),
    {
        proof {
            self.lemma_idx_in_range(x, y);
        }
        // the vector length bounds the index, so it fits a usize
        let n: usize = self.pixels.len();
        let i: usize = (y as usize) * (self.width as usize) + (x as usize);
        self.pixels.set(i, p);
    }
}

} // verus!
