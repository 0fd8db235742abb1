use vstd::prelude::*;

verus! {

/// Largest raster dimension accepted on either axis.
pub const DIM_MAX: usize = 65_535;

/// One RGBA pixel.
#[derive(Clone, Copy, PartialEq, Eq, Structural, Debug)]
pub struct Rgba {
    pub r: u8,
    pub g: u8,
    pub b: u8,
    pub a: u8,
}

/// The opaque red every stroke is painted with.
pub open spec fn spec_stroke_color() -> Rgba {
    Rgba { r: 255, g: 0, b: 0, a: 255 }
}

/// The neutral background shown outside the image.
pub open spec fn spec_background() -> Rgba {
    Rgba { r: 0x40, g: 0x40, b: 0x40, a: 0xff }
}

/// The stroke color as a runtime value.
pub fn stroke_color() -> (c: Rgba)
    ensures
        c == spec_stroke_color(),
{
    Rgba { r: 255, g: 0, b: 0, a: 255 }
}

/// The background color as a runtime value.
pub fn background() -> (c: Rgba)
    ensures
        c == spec_background(),
{
    Rgba { r: 0x40, g: 0x40, b: 0x40, a: 0xff }
}

/// A width x height grid of RGBA pixels, stored row by row.
pub struct Raster {
    pub width: usize,
    pub height: usize,
    pub data: Vec<Rgba>,
}

impl Raster {
    /// Well-formedness: bounded dimensions and a fully allocated grid.
    pub open spec fn wf(self) -> bool {
        &&& self.width <= DIM_MAX
        &&& self.height <= DIM_MAX
        &&& self.data@.len() == self.width * self.height
    }

    /// The pixel at `(x, y)`.
    pub open spec fn at(self, x: int, y: int) -> Rgba {
        self.data@[y * self.width + x]
    }

    /// Build a raster from a row-major pixel vector.
    pub fn new(width: usize, height: usize, data: Vec<Rgba>) -> (r: Raster)
        requires
            width <= DIM_MAX,
            height <= DIM_MAX,
            data@.len() == width * height,
        ensures
            r.wf(),
            r.width == width,
            r.height == height,
            r.data@ == data@,
    {
        Raster { width, height, data }
    }

    /// A raster of the given dimensions filled with one color.
    pub fn filled(width: usize, height: usize, color: Rgba) -> (r: Raster)
        requires
            width <= DIM_MAX,
            height <= DIM_MAX,
        ensures
            r.wf(),
            r.width == width,
            r.height == height,
            forall|x: int, y: int|
                0 <= x < width && 0 <= y < height ==> r.at(x, y) == color,
    {
        proof {
            crate::fixed::lemma_mul_bounds(width as int, height as int, DIM_MAX as int, DIM_MAX as int);
        }
        let n: usize = width * height;
        let mut data: Vec<Rgba> = Vec::new();
        let mut i: usize = 0;
        while i < n
            invariant
                i <= n,
                data@.len() == i,
                forall|k: int| 0 <= k < i ==> data@[k] == color,
            decreases n - i,
        {
            data.push(color);
            i = i + 1;
        }
        let r = Raster { width, height, data };
        proof {
            assert forall|x: int, y: int|
                0 <= x < width && 0 <= y < height implies r.at(x, y) == color by {
                lemma_grid_index(width as int, height as int, x, y);
            }
        }
        r
    }

    /// Read the pixel at `(x, y)`.
    pub fn get(&self, x: usize, y: usize) -> (c: Rgba)
        requires
            self.wf(),
            x < self.width,
            y < self.height,
        ensures
            c == self.at(x as int, y as int),
    {
        proof {
            lemma_grid_index(self.width as int, self.height as int, x as int, y as int);
        }
        self.data[y * self.width + x]
    }

    /// Overwrite the pixel at `(x, y)`; every other pixel is kept.
    pub fn set(&mut self, x: usize, y: usize, c: Rgba)
        requires
            old(self).wf(),
            x < old(self).width,
            y < old(self).height,
        ensures
            final(self).wf(),
            final(self).width == old(self).width,
            final(self).height == old(self).height,
            final(self).at(x as int, y as int) == c,
            forall|x2: int, y2: int|
                0 <= x2 < old(self).width && 0 <= y2 < old(self).height
                    && !(x2 == x && y2 == y) ==> final(self).at(x2, y2) == old(self).at(x2, y2),
    {
        proof {
            lemma_grid_index(self.width as int, self.height as int, x as int, y as int);
        }
        let idx: usize = y * self.width + x;
        self.data.set(idx, c);
        proof {
            assert forall|x2: int, y2: int|
                0 <= x2 < old(self).width && 0 <= y2 < old(self).height
                    && !(x2 == x && y2 == y) implies final(self).at(x2, y2) == old(self).at(x2, y2) by {
                lemma_grid_index(self.width as int, self.height as int, x2, y2);
                lemma_grid_index_injective(self.width as int, self.height as int, x as int, y as int, x2, y2);
            }
        }
    }

    /// An exact copy.
    pub fn duplicate(&self) -> (r: Raster)
        requires
            self.wf(),
        ensures
            r.wf(),
            r.width == self.width,
            r.height == self.height,
            r.data@ == self.data@,
    {
        let mut data: Vec<Rgba> = Vec::new();
        let n: usize = self.data.len();
        let mut i: usize = 0;
        while i < n
            invariant
                i <= n,
                n == self.data@.len(),
                data@.len() == i,
                forall|k: int| 0 <= k < i ==> data@[k] == self.data@[k],
            decreases n - i,
        {
            data.push(self.data[i]);
            i = i + 1;
        }
        let r = Raster { width: self.width, height: self.height, data };
        proof {
            assert(r.data@ =~= self.data@);
        }
        r
    }
}

/// A grid index stays inside the data vector.
pub proof fn lemma_grid_index(w: int, h: int, x: int, y: int)
    requires
        0 <= x < w,
        0 <= y < h,
        w <= DIM_MAX,
        h <= DIM_MAX,
    ensures
        0 <= y * w,
        0 <= y * w + x < w * h,
        w * h <= DIM_MAX * DIM_MAX,
{
    assert(0 <= y * w && 0 <= y * w + x < w * h) by (nonlinear_arith)
        requires 0 <= x < w && 0 <= y < h;
    assert(w * h <= DIM_MAX * DIM_MAX) by (nonlinear_arith)
        requires 0 < w <= DIM_MAX && 0 < h <= DIM_MAX;
}

/// Distinct coordinates give distinct grid indices.
pub proof fn lemma_grid_index_injective(w: int, h: int, x1: int, y1: int, x2: int, y2: int)
    requires
        0 <= x1 < w,
        0 <= y1 < h,
        0 <= x2 < w,
        0 <= y2 < h,
        !(x1 == x2 && y1 == y2),
    ensures
        y1 * w + x1 != y2 * w + x2,
{
    assert(y1 * w + x1 != y2 * w + x2) by (nonlinear_arith)
        requires
            0 <= x1 < w && 0 <= y1 < h && 0 <= x2 < w && 0 <= y2 < h
                && !(x1 == x2 && y1 == y2);
}

} // verus!
