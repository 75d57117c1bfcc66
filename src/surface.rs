//! The pixel surface a rasterizer draws on, and an in-memory one.
use crate::color::Color;
use vstd::prelude::*;

verus! {

/// A drawable raster target: a grid of `width` by `height` pixels, read and
/// written one at a time.
pub trait Target {
    /// The width in pixels.
    spec fn spec_width(&self) -> nat;

    /// The height in pixels.
    spec fn spec_height(&self) -> nat;

    /// The color of each pixel, keyed by column and row.
    spec fn pixels(&self) -> Map<(int, int), Color>;

    /// Whether the target is in a state where its pixels can be read and written.
    spec fn well_formed(&self) -> bool;

    /// The width of the target image.
    fn width(&self) -> (r: u32)
        ensures
            r == self.spec_width(),
    ;

    /// The height of the target image.
    fn height(&self) -> (r: u32)
        ensures
            r == self.spec_height(),
    ;

    /// Returns the color for the given pixel.
    fn get_pixel(&self, x: u32, y: u32) -> (r: Color)
        requires
            self.well_formed(),
            x < self.spec_width(),
            y < self.spec_height(),
        ensures
            r == self.pixels()[(x as int, y as int)],
    ;

    /// Sets the color for the given pixel.
    fn set_pixel(&mut self, x: u32, y: u32, rgba: Color)
        requires
            old(self).well_formed(),
            x < old(self).spec_width(),
            y < old(self).spec_height(),
        ensures
            final(self).well_formed(),
            final(self).pixels() == old(self).pixels().insert((x as int, y as int), rgba),
            final(self).spec_width() == old(self).spec_width(),
            final(self).spec_height() == old(self).spec_height(),
    ;
}

/// Whether `(x, y)` names a pixel of a `w` by `h` grid.
pub open spec fn in_grid(w: int, h: int, k: (int, int)) -> bool {
    0 <= k.0 < w && 0 <= k.1 < h
}

/// An image held in memory, row by row.
pub struct Canvas {
    width: u32,
    height: u32,
    data: Vec<Color>,
}

proof fn lemma_index(w: int, h: int, x: int, y: int)
    requires
        0 <= x < w,
        0 <= y < h,
    ensures
        0 <= y * w + x < w * h,
{
    assert(0 <= y * w + x < w * h) by (nonlinear_arith)
        requires
            0 <= x < w,
            0 <= y < h,
    ;
}

proof fn lemma_index_unique(w: int, x1: int, y1: int, x2: int, y2: int)
    requires
        0 <= x1 < w,
        0 <= x2 < w,
        y1 >= 0,
        y2 >= 0,
        y1 * w + x1 == y2 * w + x2,
    ensures
        x1 == x2 && y1 == y2,
{
    assert(y1 == y2) by (nonlinear_arith)
        requires
            0 <= x1 < w,
            0 <= x2 < w,
            y1 * w + x1 == y2 * w + x2,
    ;
}

impl Canvas {
    /// A fully transparent image of the given size.
    pub fn new(width: u32, height: u32) -> (r: Canvas)
        requires
            width as int * height as int <= usize::MAX,
        ensures
            r.well_formed(),
            r.spec_width() == width,
            r.spec_height() == height,
            r.pixels().dom() == Set::new(|k: (int, int)| in_grid(width as int, height as int, k)),
            forall|k: (int, int)|
                in_grid(width as int, height as int, k) ==> #[trigger] r.pixels()[k] == [0u8, 0, 0, 0],
    {
        let n: usize = width as usize * height as usize;
        let mut data: Vec<Color> = Vec::new();
        let mut i: usize = 0;
        while i < n
            invariant
                i <= n,
                data@.len() == i,
                forall|j: int| 0 <= j < i ==> #[trigger] data@[j] == [0u8, 0, 0, 0],
            decreases n - i,
        {
            data.push([0, 0, 0, 0]);
            i = i + 1;
        }
        let r = Canvas { width, height, data };
        assert forall|k: (int, int)| in_grid(width as int, height as int, k) implies #[trigger] r.pixels()[k] == [0u8, 0, 0, 0] by {
            lemma_index(width as int, height as int, k.0, k.1);
        }
        assert(r.pixels().dom() =~= Set::new(|k: (int, int)| in_grid(width as int, height as int, k)));
        r
    }
}

impl Target for Canvas {
    closed spec fn spec_width(&self) -> nat {
        self.width as nat
    }

    closed spec fn spec_height(&self) -> nat {
        self.height as nat
    }

    closed spec fn well_formed(&self) -> bool {
        self.data@.len() == self.width as int * self.height as int
    }

    closed spec fn pixels(&self) -> Map<(int, int), Color> {
        Map::new(
            |k: (int, int)| in_grid(self.width as int, self.height as int, k),
            |k: (int, int)| self.data@[k.1 * self.width + k.0],
        )
    }

    fn width(&self) -> (r: u32) {
        self.width
    }

    fn height(&self) -> (r: u32) {
        self.height
    }

    fn get_pixel(&self, x: u32, y: u32) -> (r: Color) {
        let n: usize = self.data.len();
        proof {
            lemma_index(self.width as int, self.height as int, x as int, y as int);
        }
        self.data[y as usize * self.width as usize + x as usize]
    }

    fn set_pixel(&mut self, x: u32, y: u32, rgba: Color) {
        let n: usize = self.data.len();
        proof {
            lemma_index(self.width as int, self.height as int, x as int, y as int);
        }
        let ghost before = self.pixels();
        let i: usize = y as usize * self.width as usize + x as usize;
        self.data.set(i, rgba);
        assert forall|k: (int, int)| #[trigger] self.pixels().contains_key(k) implies self.pixels()[k]
            == before.insert((x as int, y as int), rgba)[k] by {
            if k != (x as int, y as int) {
                lemma_index(self.width as int, self.height as int, k.0, k.1);
                if k.1 * self.width + k.0 == i {
                    lemma_index_unique(self.width as int, k.0, k.1, x as int, y as int);
                }
            }
        }
        assert(self.pixels() =~= before.insert((x as int, y as int), rgba));
    }
}

} // verus!
