//! The packing session: collects trimmed sprites, then lays them out on a
//! canvas that doubles in size when they do not fit.
use vstd::prelude::*;
use crate::raster::{Image, Rect, rects_overlap};
use crate::trim::{trim_transparency, is_trim_box, fully_transparent, lemma_trim_box_unique};
use crate::layout::{
    Placement, valid_layout, placement_ok, layout_exists, sizes_in_range, crunch_packs, crunch_pack,
    lemma_layout_fits_larger,
};
use crate::compose::{compose, painted, visible_rect, drawable};

verus! {

/// A trimmed sprite and the path of the file it came from.
pub struct ImageInfo(pub Image, pub String);

/// How many times a session doubles its canvas before it gives up.
pub const MAX_FAIL_COUNT: u8 = 3;

/// What can go wrong while building an atlas.
#[derive(Debug)]
pub enum SpritePackingError {
    /// Decoding or encoding a raster file failed; holds the codec's message.
    ImageError(String),
    /// A filesystem operation failed; holds the system's message.
    IoError(String),
    /// A padded sprite overflows the integer range, or no canvas within the
    /// growth budget holds every sprite.
    InputSpriteTooLarge,
    /// A source image has no pixel with non-zero alpha.
    ImageEmpty,
}

/// `out` is the part of `src` under `b`, copied pixel for pixel.
pub open spec fn is_crop(out: Image, src: Image, b: Rect) -> bool {
    &&& out.wf()
    &&& out.width == b.w
    &&& out.height == b.h
    &&& forall|i: int, j: int|
        0 <= i < b.w && 0 <= j < b.h ==> #[trigger] out.pixel(i, j) == src.pixel(b.x + i, b.y + j)
}

/// A canvas side after `k` doublings.
pub open spec fn grown(n: int, k: nat) -> int
    decreases k,
{
    if k == 0 {
        n
    } else {
        2 * grown(n, (k - 1) as nat)
    }
}

/// The canvas of attempt `k`, started from `start`, has sides and an area
/// that fit in `usize`.
pub open spec fn attempt_in_range(start: (usize, usize), k: nat) -> bool {
    &&& grown(start.0 as int, k) <= usize::MAX
    &&& grown(start.1 as int, k) <= usize::MAX
    &&& grown(start.0 as int, k) * grown(start.1 as int, k) <= usize::MAX
}

/// Attempt `k` has a representable canvas and the packer fits every item in it.
pub open spec fn attempt_packs(start: (usize, usize), sizes: Seq<(usize, usize)>, k: nat) -> bool {
    &&& attempt_in_range(start, k)
    &&& crunch_packs((grown(start.0 as int, k) as usize, grown(start.1 as int, k) as usize), sizes)
}

/// The outcome of a packed session.
pub struct PackedSheet {
    /// Canvas width, after any growth.
    pub width: usize,
    /// Canvas height, after any growth.
    pub height: usize,
    /// The session's sprites, in the order they were added.
    pub sprites: Vec<ImageInfo>,
    /// One placement per sprite: its padded footprint on the canvas, and
    /// its position in `sprites`.
    pub placements: Vec<Placement>,
    /// The composed atlas.
    pub canvas: Image,
}

/// The sprite of placement `m` shows on the canvas pixel for pixel at the
/// placement's corner.
pub open spec fn shows_sprite(sheet: PackedSheet, m: int) -> bool {
    let p = sheet.placements@[m];
    let s = sheet.sprites@[p.index as int].0;
    forall|i: int, j: int|
        0 <= i < s.width && 0 <= j < s.height ==> #[trigger] s.pixel(i, j) == sheet.canvas.pixel(
            p.rect.x + i,
            p.rect.y + j,
        )
}

/// `sheet` lays out `sprites`, whose padded sizes are `sizes`, without
/// overlap on its canvas, and the canvas holds exactly those sprites on a
/// transparent background.
pub open spec fn sheet_ok(sprites: Seq<ImageInfo>, sizes: Seq<(usize, usize)>, sheet: PackedSheet) -> bool {
    &&& sheet.sprites@ == sprites
    &&& valid_layout(sheet.placements@, sizes, sheet.width as int, sheet.height as int)
    &&& sheet.canvas.wf()
    &&& sheet.canvas.width == sheet.width
    &&& sheet.canvas.height == sheet.height
    &&& forall|px: int, py: int|
        0 <= px < sheet.width && 0 <= py < sheet.height ==> #[trigger] sheet.canvas.pixel(px, py)
            == painted(sprites, sheet.placements@, sheet.placements@.len(), px, py)
    &&& forall|m: int| 0 <= m < sheet.placements@.len() ==> #[trigger] shows_sprite(sheet, m)
}

/// What packing a session with canvas `start`, sprites and padded sizes
/// gives. It succeeds exactly when every padded size is in range and one of
/// the attempts on `start` and its first `MAX_FAIL_COUNT` doublings fits all
/// items; the sheet then has the first such canvas.
pub open spec fn pack_outcome(
    start: (usize, usize),
    sprites: Seq<ImageInfo>,
    sizes: Seq<(usize, usize)>,
    r: Result<PackedSheet, SpritePackingError>,
) -> bool {
    match r {
        Ok(sheet) => {
            &&& sizes_in_range(sizes)
            &&& exists|k: nat|
                #![trigger attempt_packs(start, sizes, k)]
                k <= MAX_FAIL_COUNT && attempt_packs(start, sizes, k) && (forall|j: nat|
                    j < k ==> !#[trigger] attempt_packs(start, sizes, j)) && sheet.width == grown(
                    start.0 as int,
                    k,
                ) && sheet.height == grown(start.1 as int, k)
            &&& sheet_ok(sprites, sizes, sheet)
        },
        Err(e) => {
            &&& e is InputSpriteTooLarge
            &&& !sizes_in_range(sizes) || forall|k: nat|
                k <= MAX_FAIL_COUNT ==> !#[trigger] attempt_packs(start, sizes, k)
        },
    }
}

/// The canvas size after a failed attempt: both sides doubled, unless the
/// session has already doubled `MAX_FAIL_COUNT` times or a side would
/// overflow.
pub fn next_sheet_size(sheet_size: (usize, usize), fail_count: u8) -> (r: Result<
    (usize, usize),
    SpritePackingError,
>)
    ensures
        fail_count >= MAX_FAIL_COUNT ==> (r matches Err(e) && e is InputSpriteTooLarge),
        fail_count < MAX_FAIL_COUNT && (2 * sheet_size.0 > usize::MAX || 2 * sheet_size.1
            > usize::MAX) ==> (r matches Err(e) && e is InputSpriteTooLarge),
        fail_count < MAX_FAIL_COUNT && 2 * sheet_size.0 <= usize::MAX && 2 * sheet_size.1
            <= usize::MAX ==> r == Ok::<(usize, usize), SpritePackingError>(
            ((2 * sheet_size.0) as usize, (2 * sheet_size.1) as usize),
        ),
{
    if fail_count >= MAX_FAIL_COUNT {
        return Err(SpritePackingError::InputSpriteTooLarge);
    }
    let w = match sheet_size.0.checked_mul(2) {
        Some(v) => v,
        None => return Err(SpritePackingError::InputSpriteTooLarge),
    };
    let h = match sheet_size.1.checked_mul(2) {
        Some(v) => v,
        None => return Err(SpritePackingError::InputSpriteTooLarge),
    };
    Ok((w, h))
}

fn sizes_fit(sizes: &Vec<(usize, usize)>) -> (r: bool)
    ensures
        r == sizes_in_range(sizes@),
{
    let mut k: usize = 0;
    while k < sizes.len()
        invariant
            k <= sizes@.len(),
            forall|kk: int|
                0 <= kk < k ==> #[trigger] sizes@[kk].0 * sizes@[kk].1 + sizes@[kk].0 + sizes@[kk].1
                    <= usize::MAX,
        decreases sizes@.len() - k,
    {
        let (w, h) = sizes[k];
        let ok = match w.checked_mul(h) {
            Some(a) => match a.checked_add(w) {
                Some(b) => match b.checked_add(h) {
                    Some(_) => true,
                    None => false,
                },
                None => false,
            },
            None => false,
        };
        if !ok {
            assert(sizes@[k as int].0 * sizes@[k as int].1 + sizes@[k as int].0 + sizes@[k as int].1
                > usize::MAX) by (nonlinear_arith)
                requires
                    w == sizes@[k as int].0,
                    h == sizes@[k as int].1,
                    !ok,
                    ok == (w * h <= usize::MAX && w * h + w <= usize::MAX && w * h + w + h
                        <= usize::MAX),
            ;
            return false;
        }
        k = k + 1;
    }
    true
}

/// A packing session: a target canvas size, the padding reserved to the
/// right of and below every sprite, and the sprites collected so far.
pub struct SpritePacker {
    pub sheet_size: (usize, usize),
    pub padding: usize,
    /// The trimmed sprites, in the order they were added.
    pub images: Vec<ImageInfo>,
    /// The padded footprint of each sprite, in the same order.
    pub sizes: Vec<(usize, usize)>,
}

impl SpritePacker {
    /// The trimmed sprites, in the order they were added.
    pub open spec fn sprites(&self) -> Seq<ImageInfo> {
        self.images@
    }

    /// The padded footprint of each sprite, in the same order.
    pub open spec fn sizes(&self) -> Seq<(usize, usize)> {
        self.sizes@
    }

    /// Each sprite is a well-formed image, and its footprint is its size
    /// plus the padding on both axes.
    pub open spec fn wf(&self) -> bool {
        &&& self.images@.len() == self.sizes@.len()
        &&& forall|k: int|
            0 <= k < self.images@.len() ==> {
                &&& #[trigger] self.images@[k].0.wf()
                &&& self.sizes@[k].0 == self.images@[k].0.width + self.padding
                &&& self.sizes@[k].1 == self.images@[k].0.height + self.padding
            }
    }

    /// Opens a session with no sprites.
    pub fn new(sheet_size: (usize, usize), padding: usize) -> (r: SpritePacker)
        ensures
            r.wf(),
            r.sheet_size == sheet_size,
            r.padding == padding,
            r.sprites().len() == 0,
            r.sizes().len() == 0,
    {
        SpritePacker { sheet_size, padding, images: Vec::new(), sizes: Vec::new() }
    }

    /// Trims `image` to its non-transparent pixels and adds the result, with
    /// its footprint enlarged by the padding, to the session. A fully
    /// transparent image gives `ImageEmpty`; a footprint that overflows gives
    /// `InputSpriteTooLarge`. On error the session is unchanged, so a caller
    /// may skip the image and go on.
    pub fn add_image(&mut self, image: Image, path: String) -> (r: Result<(), SpritePackingError>)
        requires
            old(self).wf(),
            image.wf(),
        ensures
            final(self).wf(),
            add_outcome(*old(self), *final(self), image, path, r),
    {
        let b = match trim_transparency(&image) {
            Ok(b) => b,
            Err(e) => return Err(e),
        };
        assert forall|b2: Rect| #[trigger] is_trim_box(&image, b2) implies b2 == b by {
            lemma_trim_box_unique(&image, b, b2);
        }
        let w = match b.w.checked_add(self.padding) {
            Some(v) => v,
            None => return Err(SpritePackingError::InputSpriteTooLarge),
        };
        let h = match b.h.checked_add(self.padding) {
            Some(v) => v,
            None => return Err(SpritePackingError::InputSpriteTooLarge),
        };
        let sub = image.crop(b);
        let ghost old_images = self.images@;
        self.images.push(ImageInfo(sub, path));
        self.sizes.push((w, h));
        assert(self.images@.drop_last() == old_images);
        Ok(())
    }

    /// Lays the sprites out on the session's canvas. When they do not fit,
    /// both sides of the canvas double and the layout is tried again, at most
    /// `MAX_FAIL_COUNT` times; then, or when a size overflows, the result is
    /// `InputSpriteTooLarge`. On success the sprites are composed onto a
    /// transparent canvas of the size that fit.
    pub fn pack_sprites(self) -> (r: Result<PackedSheet, SpritePackingError>)
        requires
            self.wf(),
        ensures
            pack_outcome(self.sheet_size, self.sprites(), self.sizes(), r),
            self.sizes().len() == 0 && self.sheet_size.0 * self.sheet_size.1 <= usize::MAX ==> r is Ok,
    {
        let start = self.sheet_size;
        if !sizes_fit(&self.sizes) {
            return Err(SpritePackingError::InputSpriteTooLarge);
        }
        let mut size = self.sheet_size;
        let mut fail_count: u8 = 0;
        loop
            invariant
                self.wf(),
                self.sheet_size == start,
                sizes_in_range(self.sizes@),
                fail_count <= MAX_FAIL_COUNT,
                size.0 == grown(start.0 as int, fail_count as nat),
                size.1 == grown(start.1 as int, fail_count as nat),
                forall|j: nat| j < fail_count ==> !#[trigger] attempt_packs(start, self.sizes@, j),
                self.sizes@.len() == 0 ==> fail_count == 0,
            decreases MAX_FAIL_COUNT - fail_count,
        {
            if size.1 != 0 && size.0 > usize::MAX / size.1 {
                assert(size.0 * size.1 > usize::MAX) by (nonlinear_arith)
                    requires
                        size.1 != 0,
                        size.0 > usize::MAX / size.1,
                ;
                proof {
                    lemma_out_of_range_stays(start, fail_count as nat);
                }
                return Err(SpritePackingError::InputSpriteTooLarge);
            }
            assert(size.0 * size.1 <= usize::MAX) by (nonlinear_arith)
                requires
                    size.1 == 0 || size.0 <= usize::MAX / size.1,
            ;
            match crunch_pack(size.0, size.1, &self.sizes) {
                Some(placements) => {
                    assert(attempt_packs(start, self.sizes@, fail_count as nat));
                    proof {
                        self.lemma_layout_drawable(placements@, size.0 as int, size.1 as int);
                    }
                    let canvas = compose(size.0, size.1, &self.images, &placements);
                    let SpritePacker { images, .. } = self;
                    let sheet = PackedSheet {
                        width: size.0,
                        height: size.1,
                        sprites: images,
                        placements,
                        canvas,
                    };
                    proof {
                        lemma_sheet_shows_sprites(sheet);
                    }
                    return Ok(sheet);
                },
                None => {
                    match next_sheet_size(size, fail_count) {
                        Ok(next) => {
                            size = next;
                            fail_count = fail_count + 1;
                        },
                        Err(e) => {
                            proof {
                                if fail_count < MAX_FAIL_COUNT {
                                    lemma_out_of_range_stays(start, (fail_count + 1) as nat);
                                }
                            }
                            return Err(e);
                        },
                    }
                },
            }
        }
    }

    /// A layout of the session's footprints draws each sprite inside the
    /// canvas, within its own placement.
    proof fn lemma_layout_drawable(&self, ps: Seq<Placement>, w: int, h: int)
        requires
            self.wf(),
            valid_layout(ps, self.sizes@, w, h),
        ensures
            drawable(self.images@, ps, w, h),
            layout_sound(self.images@, ps),
    {
        assert forall|k: int| 0 <= k < ps.len() implies #[trigger] ps[k].index < self.images@.len()
            && self.images@[ps[k].index as int].0.wf() && visible_rect(
            ps[k],
            self.images@[ps[k].index as int].0,
        ).fits_in(w, h) by {
            assert(placement_ok(ps[k], self.sizes@, w, h));
            assert(self.images@[ps[k].index as int].0.wf());
        }
        assert forall|k: int| 0 <= k < ps.len() implies #[trigger] sprite_within(self.images@, ps[k]) by {
            assert(placement_ok(ps[k], self.sizes@, w, h));
            assert(self.images@[ps[k].index as int].0.wf());
        }
        assert forall|k1: int, k2: int|
            0 <= k1 < ps.len() && 0 <= k2 < ps.len() && k1 != k2 implies !rects_overlap(
            #[trigger] ps[k1].rect,
            #[trigger] ps[k2].rect,
        ) by {
            assert(ps[k1].index != ps[k2].index);
        }
    }
}

/// The sprite of placement `p` exists and fits within the placement.
pub open spec fn sprite_within(sprites: Seq<ImageInfo>, p: Placement) -> bool {
    &&& p.index < sprites.len()
    &&& sprites[p.index as int].0.width <= p.rect.w
    &&& sprites[p.index as int].0.height <= p.rect.h
}

/// Every placement holds its sprite, and no two placements overlap.
pub open spec fn layout_sound(sprites: Seq<ImageInfo>, ps: Seq<Placement>) -> bool {
    &&& forall|k: int| 0 <= k < ps.len() ==> #[trigger] sprite_within(sprites, ps[k])
    &&& forall|k1: int, k2: int|
        0 <= k1 < ps.len() && 0 <= k2 < ps.len() && k1 != k2 ==> !rects_overlap(
            #[trigger] ps[k1].rect,
            #[trigger] ps[k2].rect,
        )
}

/// Drawing placements in order leaves each sprite intact: later placements
/// never cover an earlier one's pixels.
pub proof fn lemma_painted_shows_sprite(
    sprites: Seq<ImageInfo>,
    ps: Seq<Placement>,
    n: nat,
    m: int,
    i: int,
    j: int,
)
    requires
        layout_sound(sprites, ps),
        0 <= m < n <= ps.len(),
        0 <= i < sprites[ps[m].index as int].0.width,
        0 <= j < sprites[ps[m].index as int].0.height,
    ensures
        painted(sprites, ps, n, ps[m].rect.x + i, ps[m].rect.y + j) == sprites[ps[m].index as int].0.pixel(
            i,
            j,
        ),
    decreases n,
{
    assert(sprite_within(sprites, ps[m]));
    if n - 1 != m {
        let last = (n - 1) as int;
        assert(sprite_within(sprites, ps[last]));
        assert(!rects_overlap(ps[m].rect, ps[last].rect));
        lemma_painted_shows_sprite(sprites, ps, (n - 1) as nat, m, i, j);
    }
}

/// A composed sheet shows each of its sprites at its placement.
proof fn lemma_sheet_shows_sprites(sheet: PackedSheet)
    requires
        layout_sound(sheet.sprites@, sheet.placements@),
        sheet.canvas.wf(),
        sheet.canvas.width == sheet.width,
        sheet.canvas.height == sheet.height,
        forall|k: int|
            0 <= k < sheet.placements@.len() ==> visible_rect(
                #[trigger] sheet.placements@[k],
                sheet.sprites@[sheet.placements@[k].index as int].0,
            ).fits_in(sheet.width as int, sheet.height as int),
        forall|px: int, py: int|
            0 <= px < sheet.width && 0 <= py < sheet.height ==> #[trigger] sheet.canvas.pixel(px, py)
                == painted(sheet.sprites@, sheet.placements@, sheet.placements@.len(), px, py),
    ensures
        forall|m: int| 0 <= m < sheet.placements@.len() ==> #[trigger] shows_sprite(sheet, m),
{
    assert forall|m: int| 0 <= m < sheet.placements@.len() implies #[trigger] shows_sprite(sheet, m) by {
        let p = sheet.placements@[m];
        let s = sheet.sprites@[p.index as int].0;
        assert forall|i: int, j: int| 0 <= i < s.width && 0 <= j < s.height implies #[trigger] s.pixel(
            i,
            j,
        ) == sheet.canvas.pixel(p.rect.x + i, p.rect.y + j) by {
            assert(sprite_within(sheet.sprites@, p));
            lemma_painted_shows_sprite(
                sheet.sprites@,
                sheet.placements@,
                sheet.placements@.len(),
                m,
                i,
                j,
            );
        }
    }
}

/// Canvas sides never shrink as they double.
pub proof fn lemma_grown_monotone(n: int, j: nat, k: nat)
    requires
        0 <= n,
        j <= k,
    ensures
        0 <= grown(n, j) <= grown(n, k),
    decreases k,
{
    if k > 0 {
        if j < k {
            lemma_grown_monotone(n, j, (k - 1) as nat);
        } else {
            lemma_grown_monotone(n, 0, (k - 1) as nat);
        }
    }
}

/// Once an attempt's canvas is out of range, every later one is too.
proof fn lemma_out_of_range_stays(start: (usize, usize), j: nat)
    requires
        !attempt_in_range(start, j),
    ensures
        forall|k: nat| j <= k ==> !#[trigger] attempt_in_range(start, k),
{
    assert forall|k: nat| j <= k implies !#[trigger] attempt_in_range(start, k) by {
        lemma_grown_monotone(start.0 as int, j, k);
        lemma_grown_monotone(start.1 as int, j, k);
        let a1 = grown(start.0 as int, j);
        let a2 = grown(start.0 as int, k);
        let b1 = grown(start.1 as int, j);
        let b2 = grown(start.1 as int, k);
        assert(a1 * b1 <= a2 * b2) by (nonlinear_arith)
            requires
                0 <= a1 <= a2,
                0 <= b1 <= b2,
        ;
    }
}

/// The box that placement `m`'s sprite would occupy with `pad` added to its
/// width and height.
pub open spec fn padded_box(sheet: PackedSheet, m: int, pad: int) -> Rect {
    let p = sheet.placements@[m];
    let s = sheet.sprites@[p.index as int].0;
    Rect { x: p.rect.x, y: p.rect.y, w: (s.width + pad) as usize, h: (s.height + pad) as usize }
}

/// Two sprite lists agree sprite by sprite: same path, same size, and the
/// same pixel at every position.
pub open spec fn same_sprites(a: Seq<ImageInfo>, b: Seq<ImageInfo>) -> bool {
    &&& a.len() == b.len()
    &&& forall|k: int|
        0 <= k < a.len() ==> {
            &&& #[trigger] a[k].1@ == b[k].1@
            &&& a[k].0.width == b[k].0.width
            &&& a[k].0.height == b[k].0.height
            &&& forall|i: int, j: int|
                0 <= i < a[k].0.width && 0 <= j < a[k].0.height ==> #[trigger] a[k].0.pixel(i, j)
                    == b[k].0.pixel(i, j)
        }
}

/// What adding `image` from `path` to the session `before` gives: the
/// session `after` and the result `r`. Sheet size and padding stay; on error
/// nothing else changes either. A fully transparent image gives
/// `ImageEmpty`; otherwise the image has a trim box, and a footprint that
/// overflows gives `InputSpriteTooLarge`, while one that fits appends the
/// crop, its path, and its footprint.
pub open spec fn add_outcome(
    before: SpritePacker,
    after: SpritePacker,
    image: Image,
    path: String,
    r: Result<(), SpritePackingError>,
) -> bool {
    &&& after.sheet_size == before.sheet_size
    &&& after.padding == before.padding
    &&& r is Err ==> after.sprites() == before.sprites() && after.sizes() == before.sizes()
    &&& fully_transparent(&image) ==> (r matches Err(e) && e is ImageEmpty)
    &&& !fully_transparent(&image) ==> exists|b: Rect| #[trigger] is_trim_box(&image, b)
    &&& forall|b: Rect| #[trigger]
        is_trim_box(&image, b) ==> if b.w + before.padding > usize::MAX || b.h + before.padding
            > usize::MAX {
            r matches Err(e) && e is InputSpriteTooLarge
        } else {
            &&& r is Ok
            &&& after.sprites().len() == before.sprites().len() + 1
            &&& after.sprites().drop_last() == before.sprites()
            &&& is_crop(after.sprites().last().0, image, b)
            &&& after.sprites().last().1 == path
            &&& after.sizes() == before.sizes().push(
                ((b.w + before.padding) as usize, (b.h + before.padding) as usize),
            )
        }
}

/// Two sessions whose sprites agree pixel for pixel still agree after each
/// adds the same image from the same path successfully, whatever their
/// paddings.
pub proof fn lemma_add_keeps_same_sprites(
    a_before: SpritePacker,
    a_after: SpritePacker,
    b_before: SpritePacker,
    b_after: SpritePacker,
    image: Image,
    path: String,
)
    requires
        same_sprites(a_before.sprites(), b_before.sprites()),
        add_outcome(a_before, a_after, image, path, Ok(())),
        add_outcome(b_before, b_after, image, path, Ok(())),
    ensures
        same_sprites(a_after.sprites(), b_after.sprites()),
{
    let bx = choose|bx: Rect| #[trigger] is_trim_box(&image, bx);
    let sa = a_after.sprites();
    let sb = b_after.sprites();
    let n = a_before.sprites().len();
    assert forall|k: int| 0 <= k < sa.len() implies {
        &&& #[trigger] sa[k].1@ == sb[k].1@
        &&& sa[k].0.width == sb[k].0.width
        &&& sa[k].0.height == sb[k].0.height
        &&& forall|i: int, j: int|
            0 <= i < sa[k].0.width && 0 <= j < sa[k].0.height ==> #[trigger] sa[k].0.pixel(i, j)
                == sb[k].0.pixel(i, j)
    } by {
        if k < n {
            assert(sa[k] == sa.drop_last()[k]);
            assert(sb[k] == sb.drop_last()[k]);
            assert(a_before.sprites()[k].1@ == b_before.sprites()[k].1@);
        } else {
            assert(sa[k] == sa.last());
            assert(sb[k] == sb.last());
            assert forall|i: int, j: int|
                0 <= i < sa[k].0.width && 0 <= j < sa[k].0.height implies #[trigger] sa[k].0.pixel(i, j)
                == sb[k].0.pixel(i, j) by {
                assert(sa[k].0.pixel(i, j) == image.pixel(bx.x + i, bx.y + j));
                assert(sb[k].0.pixel(i, j) == image.pixel(bx.x + i, bx.y + j));
            }
        }
    }
}

/// When no layout of the footprints fits the canvas reached after
/// `MAX_FAIL_COUNT` doublings of the starting size, packing fails with
/// `InputSpriteTooLarge`.
pub proof fn lemma_exhaustion(p: SpritePacker, r: Result<PackedSheet, SpritePackingError>)
    requires
        pack_outcome(p.sheet_size, p.sprites(), p.sizes(), r),
        !layout_exists(
            p.sizes(),
            grown(p.sheet_size.0 as int, MAX_FAIL_COUNT as nat),
            grown(p.sheet_size.1 as int, MAX_FAIL_COUNT as nat),
        ),
    ensures
        r matches Err(e) && e is InputSpriteTooLarge,
{
    if r is Ok {
        let sheet = r->Ok_0;
        let k = choose|k: nat|
            #![trigger attempt_packs(p.sheet_size, p.sizes(), k)]
            k <= MAX_FAIL_COUNT && attempt_packs(p.sheet_size, p.sizes(), k) && (forall|j: nat|
                j < k ==> !#[trigger] attempt_packs(p.sheet_size, p.sizes(), j)) && sheet.width
                == grown(p.sheet_size.0 as int, k) && sheet.height == grown(p.sheet_size.1 as int, k);
        let w3 = grown(p.sheet_size.0 as int, MAX_FAIL_COUNT as nat);
        let h3 = grown(p.sheet_size.1 as int, MAX_FAIL_COUNT as nat);
        lemma_grown_monotone(p.sheet_size.0 as int, k, MAX_FAIL_COUNT as nat);
        lemma_grown_monotone(p.sheet_size.1 as int, k, MAX_FAIL_COUNT as nat);
        lemma_layout_fits_larger(
            sheet.placements@,
            p.sizes(),
            sheet.width as int,
            sheet.height as int,
            w3,
            h3,
        );
        assert(layout_exists(p.sizes(), w3, h3));
    }
}

/// Padding reserves space and draws nothing. Two sessions whose sprites
/// agree pixel for pixel (as after the same `add_image` calls), whatever
/// their paddings, show each sprite with the same pixels wherever each placed
/// it; and in each sheet no sprite, grown by its session's padding, overlaps
/// another.
pub proof fn lemma_padding_keeps_content(
    first: SpritePacker,
    second: SpritePacker,
    sheet_a: PackedSheet,
    sheet_b: PackedSheet,
)
    requires
        first.wf(),
        second.wf(),
        same_sprites(first.sprites(), second.sprites()),
        pack_outcome(first.sheet_size, first.sprites(), first.sizes(), Ok(sheet_a)),
        pack_outcome(second.sheet_size, second.sprites(), second.sizes(), Ok(sheet_b)),
    ensures
        forall|m1: int, m2: int, i: int, j: int|
            0 <= m1 < sheet_a.placements@.len() && 0 <= m2 < sheet_b.placements@.len()
                && sheet_a.placements@[m1].index == sheet_b.placements@[m2].index && 0 <= i
                < sheet_a.sprites@[sheet_a.placements@[m1].index as int].0.width && 0 <= j
                < sheet_a.sprites@[sheet_a.placements@[m1].index as int].0.height ==> #[trigger] sheet_a.canvas.pixel(
                sheet_a.placements@[m1].rect.x + i,
                sheet_a.placements@[m1].rect.y + j,
            ) == #[trigger] sheet_b.canvas.pixel(
                sheet_b.placements@[m2].rect.x + i,
                sheet_b.placements@[m2].rect.y + j,
            ),
        forall|m1: int, m2: int|
            0 <= m1 < sheet_a.placements@.len() && 0 <= m2 < sheet_a.placements@.len() && m1 != m2
                ==> !rects_overlap(
                #[trigger] padded_box(sheet_a, m1, first.padding as int),
                #[trigger] padded_box(sheet_a, m2, first.padding as int),
            ),
        forall|m1: int, m2: int|
            0 <= m1 < sheet_b.placements@.len() && 0 <= m2 < sheet_b.placements@.len() && m1 != m2
                ==> !rects_overlap(
                #[trigger] padded_box(sheet_b, m1, second.padding as int),
                #[trigger] padded_box(sheet_b, m2, second.padding as int),
            ),
{
    assert forall|m1: int, m2: int, i: int, j: int|
        0 <= m1 < sheet_a.placements@.len() && 0 <= m2 < sheet_b.placements@.len()
            && sheet_a.placements@[m1].index == sheet_b.placements@[m2].index && 0 <= i
            < sheet_a.sprites@[sheet_a.placements@[m1].index as int].0.width && 0 <= j
            < sheet_a.sprites@[sheet_a.placements@[m1].index as int].0.height implies #[trigger] sheet_a.canvas.pixel(
        sheet_a.placements@[m1].rect.x + i,
        sheet_a.placements@[m1].rect.y + j,
    ) == #[trigger] sheet_b.canvas.pixel(
        sheet_b.placements@[m2].rect.x + i,
        sheet_b.placements@[m2].rect.y + j,
    ) by {
        assert(shows_sprite(sheet_a, m1));
        assert(shows_sprite(sheet_b, m2));
        let k = sheet_a.placements@[m1].index as int;
        let s = sheet_a.sprites@[k].0;
        let t = sheet_b.sprites@[k].0;
        assert(valid_layout(sheet_a.placements@, first.sizes(), sheet_a.width as int, sheet_a.height as int));
        assert(placement_ok(sheet_a.placements@[m1], first.sizes(), sheet_a.width as int, sheet_a.height as int));
        assert(first.sprites()[k].1@ == second.sprites()[k].1@);
        assert(s.pixel(i, j) == t.pixel(i, j));
        assert(s.pixel(i, j) == sheet_a.canvas.pixel(
            sheet_a.placements@[m1].rect.x + i,
            sheet_a.placements@[m1].rect.y + j,
        ));
        assert(t.pixel(i, j) == sheet_b.canvas.pixel(
            sheet_b.placements@[m2].rect.x + i,
            sheet_b.placements@[m2].rect.y + j,
        ));
    }
    lemma_spacing(first, sheet_a);
    lemma_spacing(second, sheet_b);
}

/// In a packed sheet, no sprite grown by the session's padding overlaps
/// another.
proof fn lemma_spacing(p: SpritePacker, s: PackedSheet)
    requires
        p.wf(),
        pack_outcome(p.sheet_size, p.sprites(), p.sizes(), Ok(s)),
    ensures
        forall|m1: int, m2: int|
            0 <= m1 < s.placements@.len() && 0 <= m2 < s.placements@.len() && m1 != m2
                ==> !rects_overlap(
                #[trigger] padded_box(s, m1, p.padding as int),
                #[trigger] padded_box(s, m2, p.padding as int),
            ),
{
    assert forall|m1: int, m2: int|
        0 <= m1 < s.placements@.len() && 0 <= m2 < s.placements@.len() && m1 != m2
            implies !rects_overlap(
            #[trigger] padded_box(s, m1, p.padding as int),
            #[trigger] padded_box(s, m2, p.padding as int),
        ) by {
        let sw = s.width as int;
        let sh = s.height as int;
        assert(placement_ok(s.placements@[m1], p.sizes(), sw, sh));
        assert(placement_ok(s.placements@[m2], p.sizes(), sw, sh));
        assert(s.placements@[m1].index != s.placements@[m2].index);
        assert(p.images@[s.placements@[m1].index as int].0.wf());
        assert(p.images@[s.placements@[m2].index as int].0.wf());
    }
}

} // verus!
