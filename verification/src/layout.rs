//! The reflow layout model: the deterministic row-packing of blocks
//! into a bounded-width canvas, as a mathematical function, with the
//! laws the packing obeys.

use vstd::prelude::*;
use crate::block::{spec_constrained_size, ImageBlock};
use crate::constants::{
    ALIGN_SPACING, BLOCK_PADDING, CANVAS_PADDING, MIN_CANVAS_INNER_WIDTH,
};
use crate::geom::{spec_max, Vec2};

verus! {

/// The inner width a reflow actually uses: never below the minimum that
/// fits one minimum-size block.
pub open spec fn spec_effective_inner_width(inner_width: int) -> int {
    spec_max(inner_width, MIN_CANVAS_INNER_WIDTH as int)
}

/// The widest image a reflow leaves: the inner width less the block
/// padding, and at least one unit.
pub open spec fn spec_max_image_width(inner_width: int) -> int {
    spec_max(spec_effective_inner_width(inner_width) - 2 * BLOCK_PADDING, 1)
}

/// One packing item: the block's category and its outer extent.
pub struct PackItem {
    pub is_group: bool,
    pub w: int,
    pub h: int,
}

/// The positions row-packing assigns to the items, given the running
/// cursor, the current row's height so far, and the previous item's
/// category. A row breaks when the category changes on a begun row, and
/// again when the item would pass the right limit.
pub open spec fn spec_pack(
    items: Seq<PackItem>,
    limit: int,
    cx: int,
    cy: int,
    rh: int,
    prev: Option<bool>,
) -> Seq<(int, int)>
    decreases items.len(),
{
    if items.len() == 0 {
        Seq::empty()
    } else {
        let it = items[0];
        let wrap1 = prev is Some && prev->0 != it.is_group && cx > CANVAS_PADDING as int;
        let cx1 = if wrap1 {
            CANVAS_PADDING as int
        } else {
            cx
        };
        let cy1 = if wrap1 {
            cy + rh + ALIGN_SPACING
        } else {
            cy
        };
        let rh1: int = if wrap1 {
            0
        } else {
            rh
        };
        let wrap2 = cx1 + it.w > limit;
        let cx2 = if wrap2 {
            CANVAS_PADDING as int
        } else {
            cx1
        };
        let cy2 = if wrap2 {
            cy1 + rh1 + ALIGN_SPACING
        } else {
            cy1
        };
        let rh2: int = if wrap2 {
            0
        } else {
            rh1
        };
        seq![(cx2, cy2)] + spec_pack(
            items.subrange(1, items.len() as int),
            limit,
            cx2 + it.w + ALIGN_SPACING,
            cy2,
            spec_max(rh2, it.h),
            Some(it.is_group),
        )
    }
}

/// The size reflow gives a block: its preferred size restored, then
/// clamped to the available width.
pub open spec fn spec_reflow_size(b: ImageBlock, max_image_width: int) -> Vec2 {
    spec_constrained_size(
        ImageBlock { image_size: b.preferred_image_size, ..b },
        max_image_width,
    )
}

/// The packing item a block contributes to a reflow at this width.
pub open spec fn spec_pack_item(b: ImageBlock, max_image_width: int) -> PackItem {
    PackItem {
        is_group: b.group.is_group,
        w: spec_reflow_size(b, max_image_width).x + 2 * BLOCK_PADDING,
        h: spec_reflow_size(b, max_image_width).y + 2 * BLOCK_PADDING,
    }
}

/// The packing items of a whole sequence of blocks.
pub open spec fn spec_pack_items(s: Seq<ImageBlock>, max_image_width: int) -> Seq<PackItem> {
    Seq::new(s.len(), |i: int| spec_pack_item(s[i], max_image_width))
}

/// The row-packed positions of a whole reflow pass.
pub open spec fn spec_reflow_positions(s: Seq<ImageBlock>, inner_width: int) -> Seq<(int, int)> {
    spec_pack(
        spec_pack_items(s, spec_max_image_width(inner_width)),
        CANVAS_PADDING + spec_effective_inner_width(inner_width),
        CANVAS_PADDING as int,
        CANVAS_PADDING as int,
        0,
        None,
    )
}

/// One block after a reflow pass: resized and repositioned, everything
/// else untouched.
pub open spec fn spec_reflow_block(b: ImageBlock, size: Vec2, p: (int, int)) -> ImageBlock {
    ImageBlock {
        pos: crate::block::BlockPosition {
            position: Vec2 { x: p.0 as i64, y: p.1 as i64 },
            ..b.pos
        },
        image_size: size,
        ..b
    }
}

/// A whole sequence of blocks after one reflow pass at this width.
pub open spec fn spec_reflow(s: Seq<ImageBlock>, inner_width: int) -> Seq<ImageBlock> {
    Seq::new(
        s.len(),
        |i: int| spec_reflow_block(
            s[i],
            spec_reflow_size(s[i], spec_max_image_width(inner_width)),
            spec_reflow_positions(s, inner_width)[i],
        ),
    )
}

/// Packing assigns one position per item.
pub proof fn lemma_pack_len(
    items: Seq<PackItem>,
    limit: int,
    cx: int,
    cy: int,
    rh: int,
    prev: Option<bool>,
)
    ensures
        spec_pack(items, limit, cx, cy, rh, prev).len() == items.len(),
    decreases items.len(),
{
    if items.len() > 0 {
        lemma_pack_len(
            items.subrange(1, items.len() as int),
            limit,
            spec_pack(items, limit, cx, cy, rh, prev)[0].0 + items[0].w + ALIGN_SPACING,
            spec_pack(items, limit, cx, cy, rh, prev)[0].1,
            0,
            Some(items[0].is_group),
        );
        let it = items[0];
        let wrap1 = prev is Some && prev->0 != it.is_group && cx > CANVAS_PADDING as int;
        let cx1 = if wrap1 { CANVAS_PADDING as int } else { cx };
        let cy1 = if wrap1 { cy + rh + ALIGN_SPACING } else { cy };
        let rh1: int = if wrap1 { 0 } else { rh };
        let wrap2 = cx1 + it.w > limit;
        let cx2 = if wrap2 { CANVAS_PADDING as int } else { cx1 };
        let cy2 = if wrap2 { cy1 + rh1 + ALIGN_SPACING } else { cy1 };
        let rh2: int = if wrap2 { 0 } else { rh1 };
        lemma_pack_len(
            items.subrange(1, items.len() as int),
            limit,
            cx2 + it.w + ALIGN_SPACING,
            cy2,
            spec_max(rh2, it.h),
            Some(it.is_group),
        );
    }
}

/// The width law of packing: every item whose width fits a row at all
/// is placed so that its right edge stays within the limit, and never
/// left of the canvas margin.
pub proof fn lemma_pack_in_bounds(
    items: Seq<PackItem>,
    limit: int,
    cx: int,
    cy: int,
    rh: int,
    prev: Option<bool>,
)
    requires
        forall|i: int|
            0 <= i < items.len() ==> 0 <= (#[trigger] items[i]).w <= limit - CANVAS_PADDING,
        CANVAS_PADDING <= cx,
    ensures
        forall|i: int|
            0 <= i < items.len() ==> CANVAS_PADDING <= #[trigger] spec_pack(
                items,
                limit,
                cx,
                cy,
                rh,
                prev,
            )[i].0,
        forall|i: int|
            0 <= i < items.len() ==> #[trigger] spec_pack(items, limit, cx, cy, rh, prev)[i].0
                + items[i].w <= limit,
    decreases items.len(),
{
    lemma_pack_len(items, limit, cx, cy, rh, prev);
    if items.len() > 0 {
        let it = items[0];
        let wrap1 = prev is Some && prev->0 != it.is_group && cx > CANVAS_PADDING as int;
        let cx1 = if wrap1 { CANVAS_PADDING as int } else { cx };
        let cy1 = if wrap1 { cy + rh + ALIGN_SPACING } else { cy };
        let rh1: int = if wrap1 { 0 } else { rh };
        let wrap2 = cx1 + it.w > limit;
        let cx2 = if wrap2 { CANVAS_PADDING as int } else { cx1 };
        let cy2 = if wrap2 { cy1 + rh1 + ALIGN_SPACING } else { cy1 };
        let rh2: int = if wrap2 { 0 } else { rh1 };
        let rest = items.subrange(1, items.len() as int);
        assert forall|j: int| 0 <= j < rest.len() implies 0 <= (#[trigger] rest[j]).w <= limit
            - CANVAS_PADDING by {
            assert(rest[j] == items[j + 1]);
        };
        lemma_pack_in_bounds(
            rest,
            limit,
            cx2 + it.w + ALIGN_SPACING,
            cy2,
            spec_max(rh2, it.h),
            Some(it.is_group),
        );
        lemma_pack_len(
            rest,
            limit,
            cx2 + it.w + ALIGN_SPACING,
            cy2,
            spec_max(rh2, it.h),
            Some(it.is_group),
        );
        let ps = spec_pack(items, limit, cx, cy, rh, prev);
        let ps_rest = spec_pack(
            rest,
            limit,
            cx2 + it.w + ALIGN_SPACING,
            cy2,
            spec_max(rh2, it.h),
            Some(it.is_group),
        );
        assert forall|i: int|
            0 <= i < items.len() implies CANVAS_PADDING <= #[trigger] ps[i].0 && ps[i].0
                + items[i].w <= limit by {
            if i == 0 {
                assert(ps[0] == (cx2, cy2));
            } else {
                assert(items[i] == rest[i - 1]);
                assert(ps[i] == ps_rest[i - 1]);
            }
        };
    }
}

/// The category-separation law of packing: whenever two adjacent items
/// differ in category, the second one is placed on a strictly lower row
/// (its y strictly grows).
pub proof fn lemma_pack_category_rows(
    items: Seq<PackItem>,
    limit: int,
    cx: int,
    cy: int,
    rh: int,
    prev: Option<bool>,
)
    requires
        forall|i: int| 0 <= i < items.len() ==> (#[trigger] items[i]).w >= 0,
        forall|i: int| 0 <= i < items.len() ==> (#[trigger] items[i]).h >= 0,
        CANVAS_PADDING <= cx,
        0 <= rh,
    ensures
        forall|i: int|
            0 <= i < items.len() - 1 && (#[trigger] items[i]).is_group != items[i
                + 1].is_group ==> {
                let ps = spec_pack(items, limit, cx, cy, rh, prev);
                ps[i].1 < ps[i + 1].1
            },
    decreases items.len(),
{
    lemma_pack_len(items, limit, cx, cy, rh, prev);
    if items.len() > 1 {
        let it = items[0];
        let wrap1 = prev is Some && prev->0 != it.is_group && cx > CANVAS_PADDING as int;
        let cx1 = if wrap1 { CANVAS_PADDING as int } else { cx };
        let cy1 = if wrap1 { cy + rh + ALIGN_SPACING } else { cy };
        let rh1: int = if wrap1 { 0 } else { rh };
        let wrap2 = cx1 + it.w > limit;
        let cx2 = if wrap2 { CANVAS_PADDING as int } else { cx1 };
        let cy2 = if wrap2 { cy1 + rh1 + ALIGN_SPACING } else { cy1 };
        let rh2: int = if wrap2 { 0 } else { rh1 };
        let rest = items.subrange(1, items.len() as int);
        let cx_next = cx2 + it.w + ALIGN_SPACING;
        let rh_next = spec_max(rh2, it.h);
        lemma_pack_category_rows(rest, limit, cx_next, cy2, rh_next, Some(it.is_group));
        lemma_pack_len(rest, limit, cx_next, cy2, rh_next, Some(it.is_group));
        let ps = spec_pack(items, limit, cx, cy, rh, prev);
        let ps_rest = spec_pack(rest, limit, cx_next, cy2, rh_next, Some(it.is_group));
        assert forall|i: int|
            0 <= i < items.len() - 1 && (#[trigger] items[i]).is_group != items[i
                + 1].is_group implies ps[i].1 < ps[i + 1].1 by {
            if i == 0 {
                // The next item sees prev = Some(it.is_group) and a begun
                // row (the cursor advanced by at least the spacing), so
                // the category change forces at least one row break.
                let jt = rest[0];
                assert(jt == items[1]);
                let jwrap1 = Some(it.is_group) is Some && it.is_group != jt.is_group && cx_next
                    > CANVAS_PADDING as int;
                assert(cx_next >= cx2 + ALIGN_SPACING);
                assert(jwrap1);
                let jcy1 = cy2 + rh_next + ALIGN_SPACING;
                assert(jcy1 > cy2);
                assert(ps_rest[0].1 >= jcy1);
                assert(ps[i].1 == cy2);
                assert(ps[i + 1].1 == ps_rest[0].1);
            } else {
                assert(items[i] == rest[i - 1] && items[i + 1] == rest[i]);
                assert(ps[i].1 == ps_rest[i - 1].1 && ps[i + 1].1 == ps_rest[i].1);
            }
        };
    }
}

/// Reflow is idempotent: a second reflow at the same width reproduces
/// the same sizes and positions, because packing depends only on the
/// preferred sizes, aspect ratios, categories and order, none of which
/// a reflow changes.
pub proof fn lemma_reflow_idempotent(s: Seq<ImageBlock>, inner_width: int)
    ensures
        spec_reflow(spec_reflow(s, inner_width), inner_width) == spec_reflow(s, inner_width),
{
    let t = spec_reflow(s, inner_width);
    let maxw = spec_max_image_width(inner_width);
    assert forall|i: int| 0 <= i < s.len() implies spec_reflow_size(#[trigger] t[i], maxw)
        == spec_reflow_size(s[i], maxw) by {
        assert(t[i].preferred_image_size == s[i].preferred_image_size);
        assert(t[i].aspect_w == s[i].aspect_w && t[i].aspect_h == s[i].aspect_h);
    };
    assert(spec_pack_items(t, maxw) =~= spec_pack_items(s, maxw));
    assert(spec_reflow_positions(t, inner_width) == spec_reflow_positions(s, inner_width));
    assert forall|i: int| 0 <= i < t.len() implies #[trigger] spec_reflow(t, inner_width)[i]
        == t[i] by {
        assert(spec_reflow(t, inner_width)[i] == spec_reflow_block(
            t[i],
            spec_reflow_size(t[i], maxw),
            spec_reflow_positions(t, inner_width)[i],
        ));
    };
    assert(spec_reflow(t, inner_width) =~= t);
}

} // verus!
