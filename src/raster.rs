//! Pixel grids: RGBA images stored row by row, and rectangles over them.
use vstd::prelude::*;

verus! {

/// One RGBA sample; `a == 0` is fully transparent.
#[derive(Clone, Copy, PartialEq, Eq, Debug, Structural)]
pub struct Rgba {
    pub r: u8,
    pub g: u8,
    pub b: u8,
    pub a: u8,
}

impl Rgba {
    /// The fully transparent black pixel that a fresh canvas holds.
    pub open spec fn spec_transparent() -> Rgba {
        Rgba { r: 0, g: 0, b: 0, a: 0 }
    }

    pub fn transparent() -> (p: Rgba)
        ensures
            p == Rgba::spec_transparent(),
    {
        Rgba { r: 0, g: 0, b: 0, a: 0 }
    }
}

/// An axis-aligned integer rectangle.
#[derive(Clone, Copy, PartialEq, Eq, Debug, Structural)]
pub struct Rect {
    pub x: usize,
    pub y: usize,
    pub w: usize,
    pub h: usize,
}

impl Rect {
    pub fn new(x: usize, y: usize, w: usize, h: usize) -> (r: Rect)
        ensures
            r == (Rect { x, y, w, h }),
    {
        Rect { x, y, w, h }
    }

    /// The point `(px, py)` lies inside the rectangle.
    pub open spec fn covers(self, px: int, py: int) -> bool {
        self.x <= px < self.x + self.w && self.y <= py < self.y + self.h
    }

    /// The rectangle lies within a `w` by `h` area anchored at the origin.
    pub open spec fn fits_in(self, w: int, h: int) -> bool {
        self.x + self.w <= w && self.y + self.h <= h
    }
}

/// Two rectangles share at least one point.
pub open spec fn rects_overlap(a: Rect, b: Rect) -> bool {
    &&& a.x < b.x + b.w
    &&& b.x < a.x + a.w
    &&& a.y < b.y + b.h
    &&& b.y < a.y + a.h
}

/// The sample at column `x`, row `y` of a row-major grid `width` samples wide.
pub open spec fn pixel_at(pixels: Seq<Rgba>, width: int, x: int, y: int) -> Rgba {
    pixels[y * width + x]
}

/// A decoded image: `height` rows of `width` pixels, row by row.
#[derive(Debug)]
pub struct Image {
    pub width: usize,
    pub height: usize,
    pub pixels: Vec<Rgba>,
}

impl Image {
    /// The pixel buffer holds exactly one sample per grid position, and
    /// every position has a `usize` index.
    pub open spec fn wf(&self) -> bool {
        &&& self.pixels@.len() == self.width * self.height
        &&& self.width * self.height <= usize::MAX
    }

    pub open spec fn pixel(&self, x: int, y: int) -> Rgba {
        pixel_at(self.pixels@, self.width as int, x, y)
    }

    /// `(x, y)` is a position of the grid whose pixel has non-zero alpha.
    pub open spec fn opaque_at(&self, x: int, y: int) -> bool {
        0 <= x < self.width && 0 <= y < self.height && self.pixel(x, y).a != 0
    }

    /// Builds an image from its row-major pixels; `None` unless there is
    /// exactly one pixel per grid position.
    pub fn from_pixels(width: usize, height: usize, pixels: Vec<Rgba>) -> (r: Option<Image>)
        ensures
            r is Some <==> pixels@.len() == width * height,
            r matches Some(img) ==> img.width == width && img.height == height && img.pixels@
                == pixels@,
    {
        let n = pixels.len();
        if height != 0 && width > usize::MAX / height {
            assert(width * height > usize::MAX) by (nonlinear_arith)
                requires
                    height != 0,
                    width > usize::MAX / height,
            ;
            return None;
        }
        assert(width * height <= usize::MAX) by (nonlinear_arith)
            requires
                height == 0 || width <= usize::MAX / height,
        ;
        if n == width * height {
            Some(Image { width, height, pixels })
        } else {
            None
        }
    }

    pub fn get_pixel(&self, x: usize, y: usize) -> (p: Rgba)
        requires
            self.wf(),
            x < self.width,
            y < self.height,
        ensures
            p == self.pixel(x as int, y as int),
    {
        proof {
            lemma_index_in_grid(self.width as int, self.height as int, x as int, y as int);
            assert(y * self.width <= y * self.width + x);
        }
        self.pixels[y * self.width + x]
    }

    /// Copies the part of the image under `r` into an image of its own.
    pub fn crop(&self, r: Rect) -> (out: Image)
        requires
            self.wf(),
            r.fits_in(self.width as int, self.height as int),
        ensures
            out.wf(),
            out.width == r.w,
            out.height == r.h,
            forall|i: int, j: int|
                0 <= i < r.w && 0 <= j < r.h ==> #[trigger] out.pixel(i, j) == self.pixel(
                    r.x + i,
                    r.y + j,
                ),
    {
        let mut pixels: Vec<Rgba> = Vec::new();
        let mut j: usize = 0;
        while j < r.h
            invariant
                self.wf(),
                r.fits_in(self.width as int, self.height as int),
                j <= r.h,
                pixels@.len() == j * r.w,
                forall|i: int, jj: int|
                    0 <= i < r.w && 0 <= jj < j ==> #[trigger] pixel_at(pixels@, r.w as int, i, jj)
                        == self.pixel(r.x + i, r.y + jj),
            decreases r.h - j,
        {
            let mut i: usize = 0;
            while i < r.w
                invariant
                    self.wf(),
                    r.fits_in(self.width as int, self.height as int),
                    j < r.h,
                    i <= r.w,
                    pixels@.len() == j * r.w + i,
                    forall|ii: int, jj: int|
                        0 <= ii < r.w && 0 <= jj < j ==> #[trigger] pixel_at(
                            pixels@,
                            r.w as int,
                            ii,
                            jj,
                        ) == self.pixel(r.x + ii, r.y + jj),
                    forall|ii: int| 0 <= ii < i ==> #[trigger] pixel_at(
                        pixels@,
                        r.w as int,
                        ii,
                        j as int,
                    ) == self.pixel(r.x + ii, r.y + j),
                decreases r.w - i,
            {
                let p = self.get_pixel(r.x + i, r.y + j);
                let ghost before = pixels@;
                pixels.push(p);
                proof {
                    assert forall|ii: int, jj: int|
                        0 <= ii < r.w && 0 <= jj < j implies #[trigger] pixel_at(
                            pixels@,
                            r.w as int,
                            ii,
                            jj,
                        ) == self.pixel(r.x + ii, r.y + jj) by {
                        lemma_row_major_before(r.w as int, ii, jj, i as int, j as int);
                        assert(pixel_at(pixels@, r.w as int, ii, jj) == pixel_at(
                            before,
                            r.w as int,
                            ii,
                            jj,
                        ));
                    }
                    assert forall|ii: int| 0 <= ii < i + 1 implies #[trigger] pixel_at(
                        pixels@,
                        r.w as int,
                        ii,
                        j as int,
                    ) == self.pixel(r.x + ii, r.y + j) by {
                        if ii < i {
                            lemma_row_major_before(r.w as int, ii, j as int, i as int, j as int);
                            assert(pixel_at(pixels@, r.w as int, ii, j as int) == pixel_at(
                                before,
                                r.w as int,
                                ii,
                                j as int,
                            ));
                        }
                    }
                }
                i = i + 1;
            }
            proof {
                assert((j + 1) * r.w == j * r.w + r.w) by (nonlinear_arith);
            }
            j = j + 1;
        }
        proof {
            assert(r.h * r.w == r.w * r.h) by (nonlinear_arith);
            assert(r.w * r.h <= self.width * self.height) by (nonlinear_arith)
                requires
                    r.w <= self.width,
                    r.h <= self.height,
            ;
        }
        Image { width: r.w, height: r.h, pixels }
    }
}

/// A position inside a `w` by `h` grid has a row-major index below `w * h`.
pub proof fn lemma_index_in_grid(w: int, h: int, x: int, y: int)
    requires
        0 <= x < w,
        0 <= y < h,
    ensures
        0 <= y * w + x < w * h,
{
    assert(0 <= y * w + x < w * h) by (nonlinear_arith)
        requires
            0 <= x < w,
            0 <= y < h,
    ;
}

/// Positions that come earlier in row-major order have smaller indices.
pub proof fn lemma_row_major_before(w: int, ii: int, jj: int, i: int, j: int)
    requires
        0 <= ii < w,
        0 <= i,
        0 <= jj <= j,
        jj < j || ii < i,
    ensures
        0 <= jj * w + ii < j * w + i,
{
    assert(0 <= jj * w + ii < j * w + i) by (nonlinear_arith)
        requires
            0 <= ii < w,
            0 <= i,
            0 <= jj <= j,
            jj < j || ii < i,
    ;
}

/// Two positions of a grid share an index only if they are the same position.
pub proof fn lemma_index_unique(w: int, x1: int, y1: int, x2: int, y2: int)
    requires
        0 <= x1 < w,
        0 <= x2 < w,
        0 <= y1,
        0 <= y2,
        y1 * w + x1 == y2 * w + x2,
    ensures
        x1 == x2,
        y1 == y2,
{
    if y1 < y2 {
        assert(y1 * w + x1 < y2 * w + x2) by (nonlinear_arith)
            requires
                0 <= x1 < w,
                0 <= x2,
                y1 < y2,
        ;
    } else if y2 < y1 {
        assert(y2 * w + x2 < y1 * w + x1) by (nonlinear_arith)
            requires
                0 <= x2 < w,
                0 <= x1,
                y2 < y1,
        ;
    }
}

} // verus!
