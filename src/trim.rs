//! Bounding box of the non-transparent pixels of an image.
use vstd::prelude::*;
use crate::raster::{Image, Rect};
use crate::packer::SpritePackingError;

verus! {

/// Column `x` holds at least one pixel with non-zero alpha.
pub open spec fn column_has_opaque(img: &Image, x: int) -> bool {
    exists|y: int| #[trigger] img.opaque_at(x, y)
}

/// Row `y` holds at least one pixel with non-zero alpha.
pub open spec fn row_has_opaque(img: &Image, y: int) -> bool {
    exists|x: int| #[trigger] img.opaque_at(x, y)
}

/// Every pixel of the image is fully transparent.
pub open spec fn fully_transparent(img: &Image) -> bool {
    forall|x: int, y: int| !#[trigger] img.opaque_at(x, y)
}

/// `r` is the smallest rectangle holding every pixel with non-zero alpha:
/// it lies inside the image, holds them all, and each of its four edges
/// touches one of them.
pub open spec fn is_trim_box(img: &Image, r: Rect) -> bool {
    &&& r.w > 0
    &&& r.h > 0
    &&& r.fits_in(img.width as int, img.height as int)
    &&& forall|x: int, y: int| #[trigger] img.opaque_at(x, y) ==> r.covers(x, y)
    &&& column_has_opaque(img, r.x as int)
    &&& column_has_opaque(img, r.x + r.w - 1)
    &&& row_has_opaque(img, r.y as int)
    &&& row_has_opaque(img, r.y + r.h - 1)
}

fn column_opaque(img: &Image, x: usize) -> (r: bool)
    requires
        img.wf(),
        x < img.width,
    ensures
        r == column_has_opaque(img, x as int),
{
    let mut y: usize = 0;
    while y < img.height
        invariant
            img.wf(),
            x < img.width,
            y <= img.height,
            forall|yy: int| 0 <= yy < y ==> !#[trigger] img.opaque_at(x as int, yy),
        decreases img.height - y,
    {
        if img.get_pixel(x, y).a != 0 {
            assert(img.opaque_at(x as int, y as int));
            return true;
        }
        y = y + 1;
    }
    false
}

fn row_opaque(img: &Image, y: usize) -> (r: bool)
    requires
        img.wf(),
        y < img.height,
    ensures
        r == row_has_opaque(img, y as int),
{
    let mut x: usize = 0;
    while x < img.width
        invariant
            img.wf(),
            y < img.height,
            x <= img.width,
            forall|xx: int| 0 <= xx < x ==> !#[trigger] img.opaque_at(xx, y as int),
        decreases img.width - x,
    {
        if img.get_pixel(x, y).a != 0 {
            assert(img.opaque_at(x as int, y as int));
            return true;
        }
        x = x + 1;
    }
    false
}

/// Scans columns from the left edge inward.
fn first_opaque_column(img: &Image) -> (r: Option<usize>)
    requires
        img.wf(),
    ensures
        r matches Some(x) ==> x < img.width && column_has_opaque(img, x as int) && forall|xx: int|
            0 <= xx < x ==> !#[trigger] column_has_opaque(img, xx),
        r is None ==> forall|xx: int| 0 <= xx < img.width ==> !#[trigger] column_has_opaque(img, xx),
{
    let mut x: usize = 0;
    while x < img.width
        invariant
            img.wf(),
            x <= img.width,
            forall|xx: int| 0 <= xx < x ==> !#[trigger] column_has_opaque(img, xx),
        decreases img.width - x,
    {
        if column_opaque(img, x) {
            return Some(x);
        }
        x = x + 1;
    }
    None
}

/// Scans columns from the right edge inward.
fn last_opaque_column(img: &Image) -> (r: Option<usize>)
    requires
        img.wf(),
    ensures
        r matches Some(x) ==> x < img.width && column_has_opaque(img, x as int) && forall|xx: int|
            x < xx < img.width ==> !#[trigger] column_has_opaque(img, xx),
        r is None ==> forall|xx: int| 0 <= xx < img.width ==> !#[trigger] column_has_opaque(img, xx),
{
    let mut x: usize = img.width;
    while x > 0
        invariant
            img.wf(),
            x <= img.width,
            forall|xx: int| x <= xx < img.width ==> !#[trigger] column_has_opaque(img, xx),
        decreases x,
    {
        if column_opaque(img, x - 1) {
            return Some(x - 1);
        }
        x = x - 1;
    }
    None
}

/// Scans rows from the top edge inward.
fn first_opaque_row(img: &Image) -> (r: Option<usize>)
    requires
        img.wf(),
    ensures
        r matches Some(y) ==> y < img.height && row_has_opaque(img, y as int) && forall|yy: int|
            0 <= yy < y ==> !#[trigger] row_has_opaque(img, yy),
        r is None ==> forall|yy: int| 0 <= yy < img.height ==> !#[trigger] row_has_opaque(img, yy),
{
    let mut y: usize = 0;
    while y < img.height
        invariant
            img.wf(),
            y <= img.height,
            forall|yy: int| 0 <= yy < y ==> !#[trigger] row_has_opaque(img, yy),
        decreases img.height - y,
    {
        if row_opaque(img, y) {
            return Some(y);
        }
        y = y + 1;
    }
    None
}

/// Scans rows from the bottom edge inward.
fn last_opaque_row(img: &Image) -> (r: Option<usize>)
    requires
        img.wf(),
    ensures
        r matches Some(y) ==> y < img.height && row_has_opaque(img, y as int) && forall|yy: int|
            y < yy < img.height ==> !#[trigger] row_has_opaque(img, yy),
        r is None ==> forall|yy: int| 0 <= yy < img.height ==> !#[trigger] row_has_opaque(img, yy),
{
    let mut y: usize = img.height;
    while y > 0
        invariant
            img.wf(),
            y <= img.height,
            forall|yy: int| y <= yy < img.height ==> !#[trigger] row_has_opaque(img, yy),
        decreases y,
    {
        if row_opaque(img, y - 1) {
            return Some(y - 1);
        }
        y = y - 1;
    }
    None
}

/// Finds the bounding box of the pixels with non-zero alpha by scanning
/// inward from each of the four edges. A fully transparent image has no
/// such box and gives `ImageEmpty`.
pub fn trim_transparency(image: &Image) -> (r: Result<Rect, SpritePackingError>)
    requires
        image.wf(),
    ensures
        r matches Ok(b) ==> is_trim_box(image, b),
        r matches Err(e) ==> e is ImageEmpty && fully_transparent(image),
        r is Err <==> fully_transparent(image),
{
    let left = match first_opaque_column(image) {
        Some(x) => x,
        None => {
            assert forall|x: int, y: int| !#[trigger] image.opaque_at(x, y) by {
                if image.opaque_at(x, y) {
                    assert(column_has_opaque(image, x));
                }
            }
            return Err(SpritePackingError::ImageEmpty);
        },
    };
    let right = match last_opaque_column(image) {
        Some(x) => x,
        None => {
            assert(false);
            return Err(SpritePackingError::ImageEmpty);
        },
    };
    let top = match first_opaque_row(image) {
        Some(y) => y,
        None => {
            proof {
                let yw = choose|y: int| #[trigger] image.opaque_at(left as int, y);
                assert(row_has_opaque(image, yw));
            }
            return Err(SpritePackingError::ImageEmpty);
        },
    };
    let bottom = match last_opaque_row(image) {
        Some(y) => y,
        None => {
            assert(false);
            return Err(SpritePackingError::ImageEmpty);
        },
    };
    let r = Rect::new(left, top, right - left + 1, bottom - top + 1);
    assert forall|x: int, y: int| #[trigger] image.opaque_at(x, y) implies r.covers(x, y) by {
        assert(column_has_opaque(image, x));
        assert(row_has_opaque(image, y));
    }
    proof {
        let yw = choose|y: int| #[trigger] image.opaque_at(left as int, y);
        assert(!fully_transparent(image));
    }
    Ok(r)
}

/// An image has at most one trim box.
pub proof fn lemma_trim_box_unique(img: &Image, b1: Rect, b2: Rect)
    requires
        is_trim_box(img, b1),
        is_trim_box(img, b2),
    ensures
        b1 == b2,
{
    let y1 = choose|y: int| #[trigger] img.opaque_at(b1.x as int, y);
    let y2 = choose|y: int| #[trigger] img.opaque_at(b2.x as int, y);
    let y3 = choose|y: int| #[trigger] img.opaque_at(b1.x + b1.w - 1, y);
    let y4 = choose|y: int| #[trigger] img.opaque_at(b2.x + b2.w - 1, y);
    let x1 = choose|x: int| #[trigger] img.opaque_at(x, b1.y as int);
    let x2 = choose|x: int| #[trigger] img.opaque_at(x, b2.y as int);
    let x3 = choose|x: int| #[trigger] img.opaque_at(x, b1.y + b1.h - 1);
    let x4 = choose|x: int| #[trigger] img.opaque_at(x, b2.y + b2.h - 1);
}

/// An image whose only pixel with non-zero alpha stands at `(px, py)` trims
/// to the one-pixel box at that position.
pub proof fn lemma_single_pixel_trim(img: &Image, px: int, py: int, r: Rect)
    requires
        img.opaque_at(px, py),
        forall|x: int, y: int| #[trigger] img.opaque_at(x, y) ==> x == px && y == py,
        is_trim_box(img, r),
    ensures
        r == (Rect { x: px as usize, y: py as usize, w: 1, h: 1 }),
{
    let y0 = choose|y: int| #[trigger] img.opaque_at(r.x as int, y);
    let y1 = choose|y: int| #[trigger] img.opaque_at(r.x + r.w - 1, y);
    let x0 = choose|x: int| #[trigger] img.opaque_at(x, r.y as int);
    let x1 = choose|x: int| #[trigger] img.opaque_at(x, r.y + r.h - 1);
}

} // verus!
