//! Composition of the atlas: a transparent canvas with every placed sprite
//! copied onto it.
use vstd::prelude::*;
use crate::raster::{Image, Rect, Rgba, pixel_at, lemma_index_in_grid, lemma_index_unique};
use crate::layout::Placement;
use crate::packer::ImageInfo;

verus! {

/// The part of a placement that the sprite's own pixels cover: its top-left
/// corner with the sprite's trimmed size. The rest of the placement is
/// padding and is never drawn.
pub open spec fn visible_rect(p: Placement, sprite: Image) -> Rect {
    Rect { x: p.rect.x, y: p.rect.y, w: sprite.width, h: sprite.height }
}

/// The pixel at `(px, py)` after drawing the first `k` placements, in order,
/// onto a transparent canvas.
pub open spec fn painted(sprites: Seq<ImageInfo>, ps: Seq<Placement>, k: nat, px: int, py: int) -> Rgba
    decreases k,
{
    if k == 0 {
        Rgba::spec_transparent()
    } else {
        let p = ps[k - 1];
        let s = sprites[p.index as int].0;
        if visible_rect(p, s).covers(px, py) {
            s.pixel(px - p.rect.x, py - p.rect.y)
        } else {
            painted(sprites, ps, (k - 1) as nat, px, py)
        }
    }
}

/// Every placement names a well-formed sprite whose pixels land inside a
/// `width` by `height` canvas.
pub open spec fn drawable(sprites: Seq<ImageInfo>, ps: Seq<Placement>, width: int, height: int) -> bool {
    forall|k: int|
        0 <= k < ps.len() ==> {
            &&& #[trigger] ps[k].index < sprites.len()
            &&& sprites[ps[k].index as int].0.wf()
            &&& visible_rect(ps[k], sprites[ps[k].index as int].0).fits_in(width, height)
        }
}

/// Copies every pixel of `sprite` onto the `width`-wide canvas with its
/// top-left corner at `(at_x, at_y)`; the rest of the canvas is untouched.
fn draw_sprite(canvas: &mut Vec<Rgba>, width: usize, height: usize, sprite: &Image, at_x: usize, at_y: usize)
    requires
        old(canvas)@.len() == width * height,
        width * height <= usize::MAX,
        sprite.wf(),
        at_x + sprite.width <= width,
        at_y + sprite.height <= height,
    ensures
        final(canvas)@.len() == old(canvas)@.len(),
        forall|px: int, py: int|
            0 <= px < width && 0 <= py < height ==> #[trigger] pixel_at(final(canvas)@, width as int, px, py)
                == if at_x <= px < at_x + sprite.width && at_y <= py < at_y + sprite.height {
                sprite.pixel(px - at_x, py - at_y)
            } else {
                pixel_at(old(canvas)@, width as int, px, py)
            },
{
    let ghost start = canvas@;
    let mut j: usize = 0;
    while j < sprite.height
        invariant
            canvas@.len() == width * height,
            width * height <= usize::MAX,
            sprite.wf(),
            at_x + sprite.width <= width,
            at_y + sprite.height <= height,
            j <= sprite.height,
            forall|px: int, py: int|
                0 <= px < width && 0 <= py < height ==> #[trigger] pixel_at(canvas@, width as int, px, py)
                    == if at_x <= px < at_x + sprite.width && at_y <= py < at_y + j {
                    sprite.pixel(px - at_x, py - at_y)
                } else {
                    pixel_at(start, width as int, px, py)
                },
        decreases sprite.height - j,
    {
        let mut i: usize = 0;
        while i < sprite.width
            invariant
                canvas@.len() == width * height,
                width * height <= usize::MAX,
                sprite.wf(),
                at_x + sprite.width <= width,
                at_y + sprite.height <= height,
                j < sprite.height,
                i <= sprite.width,
                forall|px: int, py: int|
                    0 <= px < width && 0 <= py < height ==> #[trigger] pixel_at(
                        canvas@,
                        width as int,
                        px,
                        py,
                    ) == if (at_x <= px < at_x + sprite.width && at_y <= py < at_y + j) || (at_x
                        <= px < at_x + i && py == at_y + j) {
                        sprite.pixel(px - at_x, py - at_y)
                    } else {
                        pixel_at(start, width as int, px, py)
                    },
            decreases sprite.width - i,
        {
            let p = sprite.get_pixel(i, j);
            let qx: usize = at_x + i;
            let qy: usize = at_y + j;
            proof {
                lemma_index_in_grid(width as int, height as int, qx as int, qy as int);
                assert(qy * width <= qy * width + qx);
            }
            let ghost before = canvas@;
            canvas.set(qy * width + qx, p);
            proof {
                assert forall|px: int, py: int|
                    0 <= px < width && 0 <= py < height implies #[trigger] pixel_at(
                        canvas@,
                        width as int,
                        px,
                        py,
                    ) == if (at_x <= px < at_x + sprite.width && at_y <= py < at_y + j) || (at_x
                        <= px < at_x + i + 1 && py == at_y + j) {
                        sprite.pixel(px - at_x, py - at_y)
                    } else {
                        pixel_at(start, width as int, px, py)
                    } by {
                    lemma_index_in_grid(width as int, height as int, px, py);
                    if px != qx || py != qy {
                        if py * width + px == qy * width + qx {
                            lemma_index_unique(width as int, px, py, qx as int, qy as int);
                        }
                        assert(pixel_at(canvas@, width as int, px, py) == pixel_at(
                            before,
                            width as int,
                            px,
                            py,
                        ));
                    }
                }
            }
            i = i + 1;
        }
        j = j + 1;
    }
}

/// Builds a `width` by `height` canvas, fully transparent, and draws each
/// placement's sprite onto it in order. Padding is reserved space only: a
/// placement's pixels beyond its sprite's size stay as they were.
pub fn compose(width: usize, height: usize, sprites: &Vec<ImageInfo>, placements: &Vec<Placement>) -> (canvas:
    Image)
    requires
        width * height <= usize::MAX,
        drawable(sprites@, placements@, width as int, height as int),
    ensures
        canvas.wf(),
        canvas.width == width,
        canvas.height == height,
        forall|px: int, py: int|
            0 <= px < width && 0 <= py < height ==> #[trigger] canvas.pixel(px, py) == painted(
                sprites@,
                placements@,
                placements@.len(),
                px,
                py,
            ),
{
    let n: usize = width * height;
    let mut pixels: Vec<Rgba> = Vec::new();
    let mut c: usize = 0;
    while c < n
        invariant
            c <= n,
            pixels@.len() == c,
            forall|d: int| 0 <= d < c ==> #[trigger] pixels@[d] == Rgba::spec_transparent(),
        decreases n - c,
    {
        pixels.push(Rgba::transparent());
        c = c + 1;
    }
    assert forall|px: int, py: int|
        0 <= px < width && 0 <= py < height implies #[trigger] pixel_at(pixels@, width as int, px, py)
            == painted(sprites@, placements@, 0, px, py) by {
        lemma_index_in_grid(width as int, height as int, px, py);
    }
    let mut k: usize = 0;
    while k < placements.len()
        invariant
            pixels@.len() == width * height,
            width * height <= usize::MAX,
            drawable(sprites@, placements@, width as int, height as int),
            k <= placements@.len(),
            forall|px: int, py: int|
                0 <= px < width && 0 <= py < height ==> #[trigger] pixel_at(pixels@, width as int, px, py)
                    == painted(sprites@, placements@, k as nat, px, py),
        decreases placements@.len() - k,
    {
        let p = placements[k];
        assert(p.index < sprites@.len());
        let sprite = &sprites[p.index].0;
        draw_sprite(&mut pixels, width, height, sprite, p.rect.x, p.rect.y);
        k = k + 1;
    }
    Image { width, height, pixels }
}

} // verus!
