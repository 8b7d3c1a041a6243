//! Placements of sized items on a canvas, and the rectangle packer that
//! computes them.
use vstd::prelude::*;
use crate::raster::{Rect, rects_overlap};

verus! {

/// Where item `index` of a packing request landed: its rectangle on the canvas.
#[derive(Clone, Copy, PartialEq, Eq, Debug, Structural)]
pub struct Placement {
    pub rect: Rect,
    pub index: usize,
}

/// `p` places one of the items of `sizes` at its own size inside a `w` by `h`
/// canvas.
pub open spec fn placement_ok(p: Placement, sizes: Seq<(usize, usize)>, w: int, h: int) -> bool {
    &&& p.index < sizes.len()
    &&& p.rect.w == sizes[p.index as int].0
    &&& p.rect.h == sizes[p.index as int].1
    &&& p.rect.fits_in(w, h)
}

/// `ps` places every item of `sizes` exactly once, unrotated, inside a `w` by
/// `h` canvas, with no two rectangles overlapping.
pub open spec fn valid_layout(ps: Seq<Placement>, sizes: Seq<(usize, usize)>, w: int, h: int) -> bool {
    &&& ps.len() == sizes.len()
    &&& forall|k: int| 0 <= k < ps.len() ==> #[trigger] placement_ok(ps[k], sizes, w, h)
    &&& forall|k1: int, k2: int|
        0 <= k1 < ps.len() && 0 <= k2 < ps.len() && k1 != k2 ==> #[trigger] ps[k1].index
            != #[trigger] ps[k2].index && !rects_overlap(ps[k1].rect, ps[k2].rect)
}

/// Some layout of `sizes` fits a `w` by `h` canvas.
pub open spec fn layout_exists(sizes: Seq<(usize, usize)>, w: int, h: int) -> bool {
    exists|ps: Seq<Placement>| valid_layout(ps, sizes, w, h)
}

/// A layout that fits a canvas fits every canvas at least as large.
pub proof fn lemma_layout_fits_larger(
    ps: Seq<Placement>,
    sizes: Seq<(usize, usize)>,
    w1: int,
    h1: int,
    w2: int,
    h2: int,
)
    requires
        valid_layout(ps, sizes, w1, h1),
        w1 <= w2,
        h1 <= h2,
    ensures
        valid_layout(ps, sizes, w2, h2),
{
    assert forall|k: int| 0 <= k < ps.len() implies #[trigger] placement_ok(ps[k], sizes, w2, h2) by {
        assert(placement_ok(ps[k], sizes, w1, h1));
    }
}

/// Whether `crunch::pack` places all items of `sizes`, unrotated, into a
/// container of size `container`. The packer is deterministic: the answer
/// depends on the container and on the item sizes in their order alone.
pub uninterp spec fn crunch_packs(container: (usize, usize), sizes: Seq<(usize, usize)>) -> bool;

/// The item sizes stay within the range in which the packer's own scoring
/// arithmetic (area plus longest side) cannot overflow.
pub open spec fn sizes_in_range(sizes: Seq<(usize, usize)>) -> bool {
    forall|k: int|
        0 <= k < sizes.len() ==> #[trigger] sizes[k].0 * sizes[k].1 + sizes[k].0 + sizes[k].1
            <= usize::MAX
}

/// Relies on `crunch::pack` with `Rotation::None` on every item: on success
/// every item is placed once, at its own size, inside the container and
/// overlapping no other item (the crate's documented guarantee); with no item
/// to place it succeeds. The item's position in `sizes` is its payload.
#[verifier::external_body]
pub(crate) fn crunch_pack(container_w: usize, container_h: usize, sizes: &Vec<(usize, usize)>) -> (r:
    Option<Vec<Placement>>)
    requires
        container_w * container_h <= usize::MAX,
        sizes_in_range(sizes@),
    ensures
        r is Some <==> crunch_packs((container_w, container_h), sizes@),
        r matches Some(ps) ==> valid_layout(ps@, sizes@, container_w as int, container_h as int),
        sizes@.len() == 0 ==> r is Some,
{
    let items = sizes.iter().enumerate().map(
        |(i, &(w, h))| crunch::Item::new(i, w, h, crunch::Rotation::None),
    );
    match crunch::pack(crunch::Rect::of_size(container_w, container_h), items) {
        Ok(packed) => Some(
            packed.into_iter().map(
                |p| Placement { rect: Rect { x: p.rect.x, y: p.rect.y, w: p.rect.w, h: p.rect.h }, index: p.data },
            ).collect(),
        ),
        Err(_) => None,
    }
}

} // verus!
