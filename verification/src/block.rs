//! The block entity: a positioned rectangle wrapping either a single
//! image (with optional animation frames) or an ordered list of child
//! blocks forming a group.

use vstd::prelude::*;
use core::cmp::Ordering;
use crate::constants::{
    BLOCK_PADDING, COORD_LIMIT, DEFAULT_GROUP_SIZE, DIM_LIMIT, GESTURE_LIMIT,
    MAX_FRAME_DURATION_MS, MIN_BLOCK_SIZE,
};
use crate::frames::{wf_frame, AnimationFrame};
use crate::geom::{
    abs128, clamp_dim, half_trunc, lemma_mul_bounds, spec_abs, spec_clamp_dim, spec_half_trunc,
    spec_max, spec_row_of, row_of, Rect, Vec2,
};
use crate::ids::fresh_id;

verus! {

/// The four corners of a block that can drive a resize gesture.
#[derive(Clone, Copy, PartialEq, Eq, Structural, Debug)]
pub enum ResizeHandle {
    /// Top-left corner handle.
    TopLeft,
    /// Top-right corner handle.
    TopRight,
    /// Bottom-left corner handle.
    BottomLeft,
    /// Bottom-right corner handle.
    BottomRight,
}

/// The state of an active resize gesture: which block, which corner, and
/// the block's rectangle when the gesture began, in canvas units.
#[derive(Clone, Copy, PartialEq, Eq, Structural, Debug)]
pub struct InteractionState {
    pub id: u128,
    pub handle: ResizeHandle,
    pub initial_block_rect: Rect,
}

/// Spatial state of a block: its top-left corner, and the dragging
/// bookkeeping for an in-flight gesture.
#[derive(Clone, Copy, PartialEq, Eq, Structural, Debug)]
pub struct BlockPosition {
    pub position: Vec2,
    pub drag_offset: Vec2,
    pub is_dragging: bool,
}

/// Animation sequence and playback state of a block. `frame_elapsed` is
/// the time spent inside the current frame, in milliseconds.
pub struct AnimationState {
    pub frames: Vec<AnimationFrame>,
    pub current_frame: usize,
    pub frame_elapsed: u64,
    pub animation_enabled: bool,
    pub has_animation: bool,
}

/// A group's derived display name; the host renders it as "Empty Group",
/// "Box: <file name of path>" or "Group of <count>".
#[derive(Clone, PartialEq, Eq, Debug)]
pub enum GroupName {
    /// A group without children.
    Empty,
    /// A group holding one child, named after that child's file.
    Single { path: String },
    /// A group of two or more children, named by their number.
    Multiple { count: usize },
}

/// Group payload of a block: the flag is fixed at creation, the children
/// are the ordered blocks a group has absorbed.
pub struct GroupData {
    pub is_group: bool,
    pub group_name: GroupName,
    pub children: Vec<ImageBlock>,
}

/// Which control elements of a block the pointer is over.
#[derive(Default, Clone, Copy, PartialEq, Eq, Structural, Debug)]
pub struct BlockControlHover {
    pub close_hovered: bool,
    pub chain_hovered: bool,
    pub counter_hovered: bool,
}

/// The core entity: one image, or one group of child blocks, positioned
/// on the canvas. The aspect ratio `aspect_w : aspect_h` is fixed at
/// creation; resizing recomputes one axis from the other through it.
pub struct ImageBlock {
    pub id: u128,
    pub path: String,
    pub pos: BlockPosition,
    pub anim: AnimationState,
    pub group: GroupData,
    pub image_size: Vec2,
    pub preferred_image_size: Vec2,
    pub aspect_w: i64,
    pub aspect_h: i64,
    pub chained: bool,
    pub counter: i32,
    pub is_full_sequence: bool,
}

/// Well-formedness of the animation state: the current frame index is in
/// range and every duration is sanitized and bounded.
pub open spec fn wf_anim(a: AnimationState) -> bool {
    &&& if a.frames@.len() == 0 {
        a.current_frame == 0
    } else {
        a.current_frame < a.frames@.len()
    }
    &&& a.frame_elapsed <= MAX_FRAME_DURATION_MS
    &&& forall|i: int| 0 <= i < a.frames@.len() ==> wf_frame(#[trigger] a.frames@[i])
}

/// Well-formedness of one block, without its children: the counter is a
/// non-negative tally, sizes and coordinates lie in the representable
/// range, the aspect ratio is positive, and only a group has children.
pub open spec fn wf_block_local(b: ImageBlock) -> bool {
    &&& 0 <= b.counter
    &&& 0 <= b.image_size.x <= DIM_LIMIT
    &&& 0 <= b.image_size.y <= DIM_LIMIT
    &&& 0 <= b.preferred_image_size.x <= DIM_LIMIT
    &&& 0 <= b.preferred_image_size.y <= DIM_LIMIT
    &&& 1 <= b.aspect_w <= DIM_LIMIT
    &&& 1 <= b.aspect_h <= DIM_LIMIT
    &&& -COORD_LIMIT <= b.pos.position.x <= COORD_LIMIT
    &&& -COORD_LIMIT <= b.pos.position.y <= COORD_LIMIT
    &&& wf_anim(b.anim)
    &&& (!b.group.is_group ==> b.group.children@.len() == 0)
}

/// Well-formedness of a block and, recursively, of all its descendants.
pub open spec fn wf_block(b: ImageBlock) -> bool
    decreases b,
{
    &&& wf_block_local(b)
    &&& forall|i: int|
        0 <= i < b.group.children@.len() ==> wf_block(#[trigger] b.group.children@[i])
}

/// All well-formed, pairwise handled by [`wf_block`].
pub open spec fn wf_blocks(s: Seq<ImageBlock>) -> bool {
    forall|i: int| 0 <= i < s.len() ==> wf_block(#[trigger] s[i])
}

/// The number of blocks in this subtree, the root included.
pub open spec fn subtree_size(b: ImageBlock) -> nat
    decreases b,
{
    1 + subtree_size_seq(b.group.children@)
}

/// The number of blocks in all the subtrees of a sequence.
pub open spec fn subtree_size_seq(s: Seq<ImageBlock>) -> nat
    decreases s,
{
    if s.len() == 0 {
        0
    } else {
        subtree_size(s[0]) + subtree_size_seq(s.subrange(1, s.len() as int))
    }
}

/// The identifiers in this subtree: the root's first, then each child's
/// subtree in order.
pub open spec fn ids_in_subtree(b: ImageBlock) -> Seq<u128>
    decreases b,
{
    seq![b.id] + ids_in_subtree_seq(b.group.children@)
}

/// The identifiers of all the subtrees of a sequence, in order.
pub open spec fn ids_in_subtree_seq(s: Seq<ImageBlock>) -> Seq<u128>
    decreases s,
{
    if s.len() == 0 {
        Seq::empty()
    } else {
        ids_in_subtree(s[0]) + ids_in_subtree_seq(s.subrange(1, s.len() as int))
    }
}

/// Every counter in the subtree is zero.
pub open spec fn counters_zeroed(b: ImageBlock) -> bool
    decreases b,
{
    &&& b.counter == 0
    &&& forall|i: int|
        0 <= i < b.group.children@.len() ==> counters_zeroed(#[trigger] b.group.children@[i])
}

/// `b` is `a` with some counters possibly changed and nothing else:
/// every other field, and the whole tree shape, agree.
pub open spec fn same_but_counters(a: ImageBlock, b: ImageBlock) -> bool
    decreases a,
{
    &&& b.id == a.id
    &&& b.path == a.path
    &&& b.pos == a.pos
    &&& b.anim.frames@ == a.anim.frames@
    &&& b.anim.current_frame == a.anim.current_frame
    &&& b.anim.frame_elapsed == a.anim.frame_elapsed
    &&& b.anim.animation_enabled == a.anim.animation_enabled
    &&& b.anim.has_animation == a.anim.has_animation
    &&& b.group.is_group == a.group.is_group
    &&& b.group.group_name == a.group.group_name
    &&& b.image_size == a.image_size
    &&& b.preferred_image_size == a.preferred_image_size
    &&& b.aspect_w == a.aspect_w
    &&& b.aspect_h == a.aspect_h
    &&& b.chained == a.chained
    &&& b.is_full_sequence == a.is_full_sequence
    &&& b.group.children@.len() == a.group.children@.len()
    &&& forall|i: int|
        0 <= i < a.group.children@.len() ==> same_but_counters(
            #[trigger] a.group.children@[i],
            b.group.children@[i],
        )
}

/// The derived name of a group with these children: empty, named after
/// the single child, or counted.
pub open spec fn spec_group_name(s: Seq<ImageBlock>) -> GroupName {
    if s.len() > 1 {
        GroupName::Multiple { count: s.len() as usize }
    } else if s.len() == 1 {
        GroupName::Single { path: s[0].path }
    } else {
        GroupName::Empty
    }
}

/// The outer width of a block: image width plus padding on both sides.
pub open spec fn spec_outer_w(b: ImageBlock) -> int {
    b.image_size.x + 2 * BLOCK_PADDING
}

/// The outer height of a block: image height plus padding on both sides.
pub open spec fn spec_outer_h(b: ImageBlock) -> int {
    b.image_size.y + 2 * BLOCK_PADDING
}

/// The layout-order comparison of two blocks: groups sort before
/// non-groups; within one category, by quantized row, then by x.
pub open spec fn spec_cmp_layout(a: ImageBlock, b: ImageBlock) -> Ordering {
    if a.group.is_group && !b.group.is_group {
        Ordering::Less
    } else if !a.group.is_group && b.group.is_group {
        Ordering::Greater
    } else {
        let aq = spec_row_of(a.pos.position.y as int);
        let bq = spec_row_of(b.pos.position.y as int);
        if aq < bq {
            Ordering::Less
        } else if aq > bq {
            Ordering::Greater
        } else if a.pos.position.x < b.pos.position.x {
            Ordering::Less
        } else if a.pos.position.x > b.pos.position.x {
            Ordering::Greater
        } else {
            Ordering::Equal
        }
    }
}

/// `a` sorts at or before `b` in layout order.
pub open spec fn layout_le(a: ImageBlock, b: ImageBlock) -> bool {
    spec_cmp_layout(a, b) != (Ordering::Greater)
}

impl BlockControlHover {
    /// Which control rectangles (close, chain, counter, in that order)
    /// the pointer is over; a group has no counter control.
    pub fn from_mouse_pos(
        mouse_pos: Option<Vec2>,
        rects: &(Rect, Rect, Rect),
        is_group: bool,
    ) -> (r: BlockControlHover)
        ensures
            r.close_hovered == (mouse_pos is Some && rects.0.spec_contains(mouse_pos->0)),
            r.chain_hovered == (mouse_pos is Some && rects.1.spec_contains(mouse_pos->0)),
            r.counter_hovered == (!is_group && mouse_pos is Some && rects.2.spec_contains(
                mouse_pos->0,
            )),
    {
        let (close_rect, chain_rect, counter_rect) = rects;
        match mouse_pos {
            Some(p) => BlockControlHover {
                close_hovered: close_rect.contains(p),
                chain_hovered: chain_rect.contains(p),
                counter_hovered: !is_group && counter_rect.contains(p),
            },
            None => BlockControlHover {
                close_hovered: false,
                chain_hovered: false,
                counter_hovered: false,
            },
        }
    }
}

impl ImageBlock {
    /// A new non-group block for a decoded image. The aspect ratio is
    /// fixed here from the given size; a zero or negative height gives
    /// the neutral ratio 1:1 rather than a division fault.
    pub fn new(
        path: String,
        frames: Vec<AnimationFrame>,
        image_size: Vec2,
        has_animation: bool,
        is_full_sequence: bool,
    ) -> (r: ImageBlock)
        requires
            0 <= image_size.x <= DIM_LIMIT,
            0 <= image_size.y <= DIM_LIMIT,
            forall|i: int| 0 <= i < frames@.len() ==> wf_frame(#[trigger] frames@[i]),
        ensures
            wf_block(r),
            r.id != 0,
            r.path == path,
            r.anim.frames@ == frames@,
            r.anim.current_frame == 0,
            r.anim.frame_elapsed == 0,
            !r.anim.animation_enabled,
            r.anim.has_animation == has_animation,
            !r.group.is_group,
            r.group.children@.len() == 0,
            r.image_size == image_size,
            r.preferred_image_size == image_size,
            r.aspect_w == if image_size.y > 0 {
                if image_size.x >= 1 {
                    image_size.x as int
                } else {
                    1
                }
            } else {
                1
            },
            r.aspect_h == if image_size.y > 0 {
                image_size.y as int
            } else {
                1
            },
            !r.chained,
            r.counter == 0,
            r.is_full_sequence == is_full_sequence,
            r.pos.position == (Vec2 { x: 0i64, y: 0i64 }),
            !r.pos.is_dragging,
    {
        let (aspect_w, aspect_h): (i64, i64) = if image_size.y > 0 {
            (if image_size.x >= 1 { image_size.x } else { 1 }, image_size.y)
        } else {
            (1, 1)
        };
        let id = fresh_id();
        ImageBlock {
            id,
            path,
            pos: BlockPosition {
                position: Vec2 { x: 0, y: 0 },
                drag_offset: Vec2 { x: 0, y: 0 },
                is_dragging: false,
            },
            anim: AnimationState {
                frames,
                current_frame: 0,
                frame_elapsed: 0,
                animation_enabled: false,
                has_animation,
            },
            group: GroupData {
                is_group: false,
                group_name: GroupName::Empty,
                children: Vec::new(),
            },
            image_size,
            preferred_image_size: image_size,
            aspect_w,
            aspect_h,
            chained: false,
            counter: 0,
            is_full_sequence,
        }
    }

    /// A new group block holding the given children, at the default
    /// group size with the neutral 1:1 aspect ratio.
    pub fn new_group(name: GroupName, children: Vec<ImageBlock>) -> (r: ImageBlock)
        requires
            wf_blocks(children@),
        ensures
            wf_block(r),
            r.id != 0,
            r.path@ == Seq::<char>::empty(),
            r.group.is_group,
            r.group.group_name == name,
            r.group.children@ == children@,
            r.anim.frames@.len() == 0,
            !r.anim.animation_enabled,
            r.image_size == (Vec2 { x: DEFAULT_GROUP_SIZE, y: DEFAULT_GROUP_SIZE }),
            r.preferred_image_size == (Vec2 { x: DEFAULT_GROUP_SIZE, y: DEFAULT_GROUP_SIZE }),
            r.aspect_w == 1,
            r.aspect_h == 1,
            !r.chained,
            r.counter == 0,
            r.is_full_sequence,
            r.pos.position == (Vec2 { x: 0i64, y: 0i64 }),
            !r.pos.is_dragging,
    {
        let id = fresh_id();
        ImageBlock {
            id,
            path: String::new(),
            pos: BlockPosition {
                position: Vec2 { x: 0, y: 0 },
                drag_offset: Vec2 { x: 0, y: 0 },
                is_dragging: false,
            },
            anim: AnimationState {
                frames: Vec::new(),
                current_frame: 0,
                frame_elapsed: 0,
                animation_enabled: false,
                has_animation: false,
            },
            group: GroupData { is_group: true, group_name: name, children },
            image_size: Vec2 { x: DEFAULT_GROUP_SIZE, y: DEFAULT_GROUP_SIZE },
            preferred_image_size: Vec2 { x: DEFAULT_GROUP_SIZE, y: DEFAULT_GROUP_SIZE },
            aspect_w: 1,
            aspect_h: 1,
            chained: false,
            counter: 0,
            is_full_sequence: true,
        }
    }

    /// The block's bounding rectangle at its current position.
    pub fn rect(&self) -> (r: Rect)
        requires
            wf_block_local(*self),
        ensures
            r.min == self.pos.position,
            r.max.x == self.pos.position.x + spec_outer_w(*self),
            r.max.y == self.pos.position.y + spec_outer_h(*self),
    {
        let outer = self.outer_size();
        Rect {
            min: self.pos.position,
            max: Vec2 { x: self.pos.position.x + outer.x, y: self.pos.position.y + outer.y },
        }
    }

    /// The drag offset recorded when a drag on this block began.
    pub fn drag_offset(&self) -> (r: Vec2)
        ensures
            r == self.pos.drag_offset,
    {
        self.pos.drag_offset
    }

    /// The total size of the block, internal padding included.
    pub fn outer_size(&self) -> (r: Vec2)
        requires
            0 <= self.image_size.x <= DIM_LIMIT,
            0 <= self.image_size.y <= DIM_LIMIT,
        ensures
            r.x == spec_outer_w(*self),
            r.y == spec_outer_h(*self),
    {
        Vec2 {
            x: self.image_size.x + BLOCK_PADDING * 2,
            y: self.image_size.y + BLOCK_PADDING * 2,
        }
    }

    /// Sets both the preferred and the current size: an explicit resize.
    pub fn set_preferred_size(&mut self, size: Vec2)
        ensures
            *final(self) == (ImageBlock {
                image_size: size,
                preferred_image_size: size,
                ..*old(self)
            }),
    {
        self.preferred_image_size = size;
        self.image_size = size;
    }

    /// Restores the user's preferred size, undoing any width clamping.
    pub fn reset_to_preferred_size(&mut self)
        ensures
            *final(self) == (ImageBlock {
                image_size: old(self).preferred_image_size,
                ..*old(self)
            }),
    {
        self.image_size = self.preferred_image_size;
    }

    /// Shrinks the block to the given width if it is wider, recomputing
    /// the height through the fixed aspect ratio; never grows it.
    pub fn constrain_to_width(&mut self, max_width: i64)
        requires
            wf_block_local(*old(self)),
            0 <= max_width <= DIM_LIMIT,
        ensures
            *final(self) == (ImageBlock {
                image_size: spec_constrained_size(*old(self), max_width as int),
                ..*old(self)
            }),
    {
        if self.image_size.x <= max_width {
            return ;
        }
        let constrained_width: i64 = if max_width >= 1 {
            max_width
        } else {
            1
        };
        proof {
            assert((constrained_width as int) * (self.aspect_h as int) <= (DIM_LIMIT as int) * (
            DIM_LIMIT as int)) by (nonlinear_arith)
                requires
                    0 <= constrained_width <= DIM_LIMIT,
                    0 <= self.aspect_h <= DIM_LIMIT,
            ;
        }
        let num: i128 = (constrained_width as i128) * (self.aspect_h as i128);
        let constrained_height: i64 = clamp_dim(num / (self.aspect_w as i128));
        self.image_size = Vec2 { x: constrained_width, y: constrained_height };
    }

    /// Advances the animation by `dt_ms` milliseconds, cycling through
    /// the frames by their durations. Returns whether the current frame
    /// changed, so the host knows to re-upload the texture.
    pub fn update_animation(&mut self, dt_ms: u64) -> (updated: bool)
        requires
            wf_anim(old(self).anim),
            dt_ms <= MAX_FRAME_DURATION_MS,
        ensures
            wf_anim(final(self).anim),
            *final(self) == (ImageBlock { anim: final(self).anim, ..*old(self) }),
            final(self).anim == (AnimationState {
                current_frame: final(self).anim.current_frame,
                frame_elapsed: final(self).anim.frame_elapsed,
                ..old(self).anim
            }),
            if old(self).anim.animation_enabled && old(self).anim.frames@.len() > 1 {
                {
                    let st = spec_advance(
                        old(self).anim.frames@,
                        old(self).anim.current_frame as int,
                        old(self).anim.frame_elapsed + dt_ms,
                    );
                    &&& final(self).anim.current_frame == st.0
                    &&& final(self).anim.frame_elapsed == st.1
                    &&& updated == (old(self).anim.frame_elapsed + dt_ms
                        >= old(self).anim.frames@[old(self).anim.current_frame as int].duration_ms)
                }
            } else {
                final(self).anim.current_frame == old(self).anim.current_frame
                    && final(self).anim.frame_elapsed == old(self).anim.frame_elapsed && !updated
            },
    {
        if !self.anim.animation_enabled || self.anim.frames.len() <= 1 {
            return false;
        }
        let ghost frames = self.anim.frames@;
        let ghost e0: int = self.anim.frame_elapsed + dt_ms;
        let ghost c0: int = self.anim.current_frame as int;
        self.anim.frame_elapsed = self.anim.frame_elapsed + dt_ms;
        let updated =
            self.anim.frame_elapsed >= self.anim.frames[self.anim.current_frame].duration_ms;
        while self.anim.frame_elapsed >= self.anim.frames[self.anim.current_frame].duration_ms
            invariant
                self.anim.frames@ == frames,
                1 < frames.len() <= usize::MAX,
                forall|i: int| 0 <= i < frames.len() ==> wf_frame(#[trigger] frames[i]),
                self.anim.current_frame < frames.len(),
                self.anim.frame_elapsed <= e0,
                spec_advance(frames, self.anim.current_frame as int, self.anim.frame_elapsed as int)
                    == spec_advance(frames, c0, e0),
                *self == (ImageBlock { anim: self.anim, ..*old(self) }),
                self.anim == (AnimationState {
                    current_frame: self.anim.current_frame,
                    frame_elapsed: self.anim.frame_elapsed,
                    ..old(self).anim
                }),
            decreases self.anim.frame_elapsed,
        {
            let dur = self.anim.frames[self.anim.current_frame].duration_ms;
            self.anim.frame_elapsed = self.anim.frame_elapsed - dur;
            self.anim.current_frame = (self.anim.current_frame + 1) % self.anim.frames.len();
        }
        proof {
            assert(spec_advance(
                frames,
                self.anim.current_frame as int,
                self.anim.frame_elapsed as int,
            ) == (self.anim.current_frame as int, self.anim.frame_elapsed as int));
        }
        updated
    }

    /// How long until the next frame is due, in milliseconds: `None`
    /// when nothing animates, at least one millisecond otherwise.
    pub fn time_until_next_frame(&self) -> (r: Option<u64>)
        requires
            wf_anim(self.anim),
        ensures
            r == if !self.anim.animation_enabled || self.anim.frames@.len() <= 1 {
                Option::<u64>::None
            } else {
                {
                    let dur = self.anim.frames@[self.anim.current_frame as int].duration_ms;
                    if dur > self.anim.frame_elapsed {
                        Option::Some((dur - self.anim.frame_elapsed) as u64)
                    } else {
                        Option::Some(1u64)
                    }
                }
            },
    {
        if !self.anim.animation_enabled || self.anim.frames.len() <= 1 {
            return None;
        }
        let dur = self.anim.frames[self.anim.current_frame].duration_ms;
        if dur > self.anim.frame_elapsed {
            Some(dur - self.anim.frame_elapsed)
        } else {
            Some(1)
        }
    }

    /// Toggles animation playback; turning it off also rewinds to the
    /// first frame. A block with at most one frame never animates.
    pub fn toggle_animation(&mut self)
        ensures
            *final(self) == (ImageBlock { anim: final(self).anim, ..*old(self) }),
            if old(self).anim.frames@.len() <= 1 {
                final(self).anim == old(self).anim
            } else if old(self).anim.animation_enabled {
                final(self).anim == (AnimationState {
                    animation_enabled: false,
                    current_frame: 0,
                    frame_elapsed: 0,
                    ..old(self).anim
                })
            } else {
                final(self).anim == (AnimationState { animation_enabled: true, ..old(self).anim })
            },
    {
        if self.anim.frames.len() <= 1 {
            return ;
        }
        self.anim.animation_enabled = !self.anim.animation_enabled;
        if !self.anim.animation_enabled {
            self.stop_animation();
        }
    }

    /// Stops playback and rewinds to the first frame; the host shows
    /// that frame again.
    pub fn stop_animation(&mut self)
        ensures
            *final(self) == (ImageBlock { anim: final(self).anim, ..*old(self) }),
            final(self).anim == (AnimationState {
                animation_enabled: false,
                current_frame: 0,
                frame_elapsed: 0,
                ..old(self).anim
            }),
    {
        self.anim.animation_enabled = false;
        self.anim.current_frame = 0;
        self.anim.frame_elapsed = 0;
    }

    /// Raises the counter tally by one.
    pub fn increment_counter(&mut self)
        requires
            old(self).counter < i32::MAX,
        ensures
            *final(self) == (ImageBlock { counter: (old(self).counter + 1) as i32, ..*old(self) }),
    {
        self.counter = self.counter + 1;
    }

    /// Lowers the counter tally by one, never below zero.
    pub fn decrement_counter(&mut self)
        requires
            0 <= old(self).counter,
        ensures
            *final(self) == (ImageBlock {
                counter: if old(self).counter > 0 {
                    (old(self).counter - 1) as i32
                } else {
                    0i32
                },
                ..*old(self)
            }),
    {
        if self.counter > 0 {
            self.counter = self.counter - 1;
        } else {
            self.counter = 0;
        }
    }

    /// Zeroes this block's counter and, recursively, every descendant's.
    pub fn reset_counters_recursive(&mut self)
        ensures
            counters_zeroed(*final(self)),
            same_but_counters(*old(self), *final(self)),
        decreases *old(self),
    {
        self.counter = 0;
        let n: usize = self.group.children.len();
        let mut i: usize = 0;
        while i < n
            invariant
                n == self.group.children@.len(),
                n == old(self).group.children@.len(),
                i <= n,
                self.counter == 0,
                *self == (ImageBlock {
                    counter: 0i32,
                    group: self.group,
                    ..*old(self)
                }),
                self.group == (GroupData { children: self.group.children, ..old(self).group }),
                forall|j: int|
                    0 <= j < i ==> counters_zeroed(#[trigger] self.group.children@[j])
                        && same_but_counters(
                        old(self).group.children@[j],
                        self.group.children@[j],
                    ),
                forall|j: int|
                    i <= j < n ==> #[trigger] self.group.children@[j]
                        == old(self).group.children@[j],
            decreases n - i,
        {
            proof {
                assert(self.group.children@[i as int] == old(self).group.children@[i as int]);
                assert(decreases_to!(*old(self) => old(self).group));
                assert(decreases_to!(old(self).group => old(self).group.children));
                assert(decreases_to!(old(self).group.children => old(self).group.children@));
                assert(decreases_to!(
                    old(self).group.children@ => old(self).group.children@[i as int]
                ));
                assert(decreases_to!(*old(self) => old(self).group.children@[i as int]));
            }
            self.group.children[i].reset_counters_recursive();
            i += 1;
        }
    }

    /// Compares two blocks in layout order: groups first, then by
    /// quantized row, then by x.
    pub fn cmp_layout(&self, other: &ImageBlock) -> (r: Ordering)
        requires
            i64::MIN < self.pos.position.y,
            i64::MIN < other.pos.position.y,
        ensures
            r == spec_cmp_layout(*self, *other),
    {
        match (self.group.is_group, other.group.is_group) {
            (true, false) => Ordering::Less,
            (false, true) => Ordering::Greater,
            _ => {
                let a_y_q = row_of(self.pos.position.y);
                let b_y_q = row_of(other.pos.position.y);
                if a_y_q < b_y_q {
                    Ordering::Less
                } else if a_y_q > b_y_q {
                    Ordering::Greater
                } else if self.pos.position.x < other.pos.position.x {
                    Ordering::Less
                } else if self.pos.position.x > other.pos.position.x {
                    Ordering::Greater
                } else {
                    Ordering::Equal
                }
            },
        }
    }

    /// Recomputes the derived group name from the current child set; a
    /// non-group block is left alone.
    pub fn update_group_name(&mut self)
        ensures
            *final(self) == (ImageBlock { group: final(self).group, ..*old(self) }),
            final(self).group == (GroupData {
                group_name: if old(self).group.is_group {
                    spec_group_name(old(self).group.children@)
                } else {
                    old(self).group.group_name
                },
                ..old(self).group
            }),
    {
        if !self.group.is_group {
            return ;
        }
        let n = self.group.children.len();
        self.group.group_name = if n > 1 {
            GroupName::Multiple { count: n }
        } else if n == 1 {
            GroupName::Single { path: self.group.children[0].path.clone() }
        } else {
            GroupName::Empty
        };
    }
}

/// The playback state after letting `elapsed` milliseconds run down from
/// frame `cur`: while a full frame duration has elapsed, it is consumed
/// and the frame index moves on cyclically.
pub open spec fn spec_advance(frames: Seq<AnimationFrame>, cur: int, elapsed: int) -> (int, int)
    decreases elapsed,
    when 0 <= elapsed && 0 <= cur < frames.len() && frames.len() > 1 && (forall|i: int|
        0 <= i < frames.len() ==> 1 <= (#[trigger] frames[i]).duration_ms)
{
    if elapsed >= frames[cur].duration_ms {
        spec_advance(
            frames,
            (cur + 1) % (frames.len() as int),
            elapsed - frames[cur].duration_ms,
        )
    } else {
        (cur, elapsed)
    }
}

/// The size [`ImageBlock::constrain_to_width`] leaves: the preferred
/// size itself when it fits, else the clamped width with the height
/// recomputed through the fixed aspect ratio.
pub open spec fn spec_constrained_size(b: ImageBlock, max_width: int) -> Vec2 {
    if b.image_size.x <= max_width {
        b.image_size
    } else {
        let w: int = if max_width >= 1 {
            max_width
        } else {
            1
        };
        Vec2 {
            x: w as i64,
            y: spec_clamp_dim(w * (b.aspect_h as int) / (b.aspect_w as int)) as i64,
        }
    }
}

/// The sign the horizontal resize delta carries for this handle: left
/// handles pull the width negative-ward.
pub open spec fn handle_x_sign(h: ResizeHandle) -> int {
    match h {
        ResizeHandle::TopLeft | ResizeHandle::BottomLeft => -1,
        _ => 1,
    }
}

/// The sign the vertical resize delta carries for this handle.
pub open spec fn handle_y_sign(h: ResizeHandle) -> int {
    match h {
        ResizeHandle::TopLeft | ResizeHandle::TopRight => -1,
        _ => 1,
    }
}

/// The width a resize gesture resolves to: twice the dragged corner's
/// offset from the block's center, taken from whichever axis moved
/// farther (the vertical one converted through the aspect ratio), at
/// least the minimum block size, and within the representable range.
pub open spec fn spec_resize_width(
    r: Rect,
    handle: ResizeHandle,
    dx: int,
    dy: int,
    aw: int,
    ah: int,
) -> int {
    let iw = (r.max.x - r.min.x) - 2 * BLOCK_PADDING;
    let ih = (r.max.y - r.min.y) - 2 * BLOCK_PADDING;
    let wx = spec_max(spec_abs(iw * handle_x_sign(handle) + 2 * dx), MIN_BLOCK_SIZE as int);
    let wy = spec_max(
        spec_abs(ih * handle_y_sign(handle) + 2 * dy) * aw / ah,
        MIN_BLOCK_SIZE as int,
    );
    let w = if spec_abs(dx) >= spec_abs(dy) {
        wx
    } else {
        wy
    };
    if w > DIM_LIMIT as int {
        DIM_LIMIT as int
    } else {
        w
    }
}

/// The height that pairs with a width through an aspect ratio.
pub open spec fn spec_height_for_width(w: int, aw: int, ah: int) -> int {
    spec_clamp_dim(w * ah / aw)
}

/// The resized block itself: the new size becomes both current and
/// preferred, and the block is re-centered on its pre-gesture center
/// (up to the half-unit a centered integer rectangle cannot represent).
pub open spec fn spec_resized_leader(b: ImageBlock, r: Rect, nw: int, nh: int) -> ImageBlock {
    ImageBlock {
        pos: BlockPosition {
            position: Vec2 {
                x: spec_half_trunc(r.min.x + r.max.x - (nw + 2 * BLOCK_PADDING)) as i64,
                y: spec_half_trunc(r.min.y + r.max.y - (nh + 2 * BLOCK_PADDING)) as i64,
            },
            ..b.pos
        },
        image_size: Vec2 { x: nw as i64, y: nh as i64 },
        preferred_image_size: Vec2 { x: nw as i64, y: nh as i64 },
        ..b
    }
}

/// The width a chained follower takes to match the leader's new height
/// through its own aspect ratio.
pub open spec fn spec_follower_width(b: ImageBlock, nh: int) -> int {
    let c = spec_max(nh * (b.aspect_w as int) / (b.aspect_h as int), MIN_BLOCK_SIZE as int);
    if c > DIM_LIMIT as int {
        DIM_LIMIT as int
    } else {
        c
    }
}

/// A chained follower after resize propagation: height matched to the
/// leader's, width from its own aspect ratio, re-centered in place.
pub open spec fn spec_resized_follower(b: ImageBlock, nh: int) -> ImageBlock {
    let cw = spec_follower_width(b, nh);
    let c2x = 2 * b.pos.position.x + b.image_size.x + 2 * BLOCK_PADDING;
    let c2y = 2 * b.pos.position.y + b.image_size.y + 2 * BLOCK_PADDING;
    ImageBlock {
        pos: BlockPosition {
            position: Vec2 {
                x: spec_half_trunc(c2x - (cw + 2 * BLOCK_PADDING)) as i64,
                y: spec_half_trunc(c2y - (nh + 2 * BLOCK_PADDING)) as i64,
            },
            ..b.pos
        },
        image_size: Vec2 { x: cw as i64, y: nh as i64 },
        preferred_image_size: Vec2 { x: cw as i64, y: nh as i64 },
        ..b
    }
}

/// How many blocks are chained.
pub open spec fn spec_count_chained(s: Seq<ImageBlock>) -> int
    decreases s.len(),
{
    if s.len() == 0 {
        0
    } else {
        spec_count_chained(s.drop_last()) + if s.last().chained {
            1int
        } else {
            0int
        }
    }
}

/// How many blocks are chained.
pub fn count_chained(blocks: &Vec<ImageBlock>) -> (r: usize)
    ensures
        r == spec_count_chained(blocks@),
{
    let n = blocks.len();
    let mut count: usize = 0;
    let mut i: usize = 0;
    while i < n
        invariant
            n == blocks@.len(),
            i <= n,
            count <= i,
            count == spec_count_chained(blocks@.take(i as int)),
        decreases n - i,
    {
        if blocks[i].chained {
            count += 1;
        }
        proof {
            assert(blocks@.take(i + 1).drop_last() =~= blocks@.take(i as int));
        }
        i += 1;
    }
    proof {
        assert(blocks@.take(n as int) =~= blocks@);
    }
    count
}

/// The index of the first block carrying this identifier, or -1.
pub open spec fn first_id_index(s: Seq<ImageBlock>, id: u128) -> int
    decreases s.len(),
{
    if s.len() == 0 {
        -1
    } else if s[0].id == id {
        0
    } else {
        let r = first_id_index(s.subrange(1, s.len() as int), id);
        if r < 0 {
            -1
        } else {
            r + 1
        }
    }
}

/// An index that carries the identifier, with none before it, is the
/// first index of that identifier.
pub proof fn lemma_first_id_index(s: Seq<ImageBlock>, id: u128, i: int)
    requires
        0 <= i < s.len(),
        s[i].id == id,
        forall|j: int| 0 <= j < i ==> s[j].id != id,
    ensures
        first_id_index(s, id) == i,
    decreases s.len(),
{
    if i == 0 {
    } else {
        lemma_first_id_index(s.subrange(1, s.len() as int), id, i - 1);
    }
}

/// Quotients of bounded non-negative dimension terms stay in range.
proof fn lemma_dim_quotient_bounds(p: int, d: int)
    requires
        0 <= p,
        1 <= d,
    ensures
        0 <= p / d <= p,
{
    vstd::arithmetic::div_mod::lemma_div_pos_is_pos(p, d);
    vstd::arithmetic::div_mod::lemma_div_nonincreasing(p, d);
}

/// Halving keeps a value's magnitude within bounds.
proof fn lemma_half_trunc_bound(v: int, c: int)
    requires
        -c <= v <= c,
        0 <= c,
    ensures
        -c <= spec_half_trunc(v) <= c,
{
    if v >= 0 {
        vstd::arithmetic::div_mod::lemma_div_pos_is_pos(v, 2);
        vstd::arithmetic::div_mod::lemma_div_nonincreasing(v, 2);
    } else {
        vstd::arithmetic::div_mod::lemma_div_pos_is_pos(-v, 2);
        vstd::arithmetic::div_mod::lemma_div_nonincreasing(-v, 2);
    }
}

/// The resized leader of a gesture within range is well-formed.
proof fn lemma_leader_wf(b: ImageBlock, r: Rect, nw: int, nh: int)
    requires
        wf_block(b),
        MIN_BLOCK_SIZE <= nw <= DIM_LIMIT,
        0 <= nh <= DIM_LIMIT,
        -GESTURE_LIMIT <= r.min.x <= GESTURE_LIMIT,
        -GESTURE_LIMIT <= r.min.y <= GESTURE_LIMIT,
        -GESTURE_LIMIT <= r.max.x <= GESTURE_LIMIT,
        -GESTURE_LIMIT <= r.max.y <= GESTURE_LIMIT,
    ensures
        wf_block(spec_resized_leader(b, r, nw, nh)),
{
    lemma_half_trunc_bound(
        r.min.x + r.max.x - (nw + 2 * BLOCK_PADDING),
        3 * GESTURE_LIMIT as int,
    );
    lemma_half_trunc_bound(
        r.min.y + r.max.y - (nh + 2 * BLOCK_PADDING),
        3 * GESTURE_LIMIT as int,
    );
    let nb = spec_resized_leader(b, r, nw, nh);
    assert(wf_block_local(nb));
    assert(forall|i: int|
        0 <= i < nb.group.children@.len() ==> wf_block(#[trigger] nb.group.children@[i]));
}

/// A chained follower resized within range is well-formed.
proof fn lemma_follower_wf(b: ImageBlock, nh: int)
    requires
        wf_block(b),
        0 <= nh <= DIM_LIMIT,
        -GESTURE_LIMIT <= b.pos.position.x <= GESTURE_LIMIT,
        -GESTURE_LIMIT <= b.pos.position.y <= GESTURE_LIMIT,
    ensures
        wf_block(spec_resized_follower(b, nh)),
{
    lemma_mul_bounds(nh, b.aspect_w as int, DIM_LIMIT as int, DIM_LIMIT as int);
    lemma_dim_quotient_bounds(nh * b.aspect_w, b.aspect_h as int);
    let cw = spec_follower_width(b, nh);
    assert(MIN_BLOCK_SIZE <= cw <= DIM_LIMIT);
    let c2x = 2 * b.pos.position.x + b.image_size.x + 2 * BLOCK_PADDING;
    let c2y = 2 * b.pos.position.y + b.image_size.y + 2 * BLOCK_PADDING;
    lemma_half_trunc_bound(c2x - (cw + 2 * BLOCK_PADDING), 4 * GESTURE_LIMIT as int);
    lemma_half_trunc_bound(c2y - (nh + 2 * BLOCK_PADDING), 4 * GESTURE_LIMIT as int);
    let nb = spec_resized_follower(b, nh);
    assert(wf_block_local(nb));
    assert(forall|i: int|
        0 <= i < nb.group.children@.len() ==> wf_block(#[trigger] nb.group.children@[i]));
}

/// Applies a resize gesture: the gripped block takes the width the
/// gesture resolves to (falling back to the minimum size when the host
/// reports a degenerate, non-finite delta), with its height recomputed
/// through its fixed aspect ratio and its center kept. When the block is
/// chained and more than one block is chained, every other chained block
/// is resized to the same new height, its own width recomputed through
/// its own aspect ratio, so a chain of differently shaped images stays
/// height-aligned.
pub fn handle_blocks_resizing(
    blocks: &mut Vec<ImageBlock>,
    resizing_state: &InteractionState,
    delta_world: Option<Vec2>,
)
    requires
        wf_blocks(old(blocks)@),
        -GESTURE_LIMIT <= resizing_state.initial_block_rect.min.x <= GESTURE_LIMIT,
        -GESTURE_LIMIT <= resizing_state.initial_block_rect.min.y <= GESTURE_LIMIT,
        -GESTURE_LIMIT <= resizing_state.initial_block_rect.max.x <= GESTURE_LIMIT,
        -GESTURE_LIMIT <= resizing_state.initial_block_rect.max.y <= GESTURE_LIMIT,
        delta_world is Some ==> -GESTURE_LIMIT <= delta_world->0.x <= GESTURE_LIMIT
            && -GESTURE_LIMIT <= delta_world->0.y <= GESTURE_LIMIT,
        forall|i: int|
            0 <= i < old(blocks)@.len() && (#[trigger] old(blocks)@[i]).chained ==> -GESTURE_LIMIT
                <= old(blocks)@[i].pos.position.x <= GESTURE_LIMIT && -GESTURE_LIMIT <= old(
                blocks,
            )@[i].pos.position.y <= GESTURE_LIMIT,
    ensures
        final(blocks)@.len() == old(blocks)@.len(),
        wf_blocks(final(blocks)@),
        !has_id(old(blocks)@, resizing_state.id) ==> final(blocks)@ == old(blocks)@,
        has_id(old(blocks)@, resizing_state.id) ==> {
            let s = old(blocks)@;
            let idx = first_id_index(s, resizing_state.id);
            let b = s[idx];
            let nw = if delta_world is None {
                MIN_BLOCK_SIZE as int
            } else {
                spec_resize_width(
                    resizing_state.initial_block_rect,
                    resizing_state.handle,
                    delta_world->0.x as int,
                    delta_world->0.y as int,
                    b.aspect_w as int,
                    b.aspect_h as int,
                )
            };
            let nh = spec_height_for_width(nw, b.aspect_w as int, b.aspect_h as int);
            let propagate = b.chained && spec_count_chained(s) > 1;
            &&& final(blocks)@[idx] == spec_resized_leader(
                b,
                resizing_state.initial_block_rect,
                nw,
                nh,
            )
            &&& forall|j: int|
                0 <= j < s.len() && j != idx ==> final(blocks)@[j] == (if propagate && (
                #[trigger] s[j]).chained {
                    spec_resized_follower(s[j], nh)
                } else {
                    s[j]
                })
        },
{
    let ghost s = blocks@;
    let idx: usize = match block_index_in_slice(blocks, resizing_state.id) {
        Some(i) => i,
        None => {
            return ;
        },
    };
    proof {
        lemma_first_id_index(s, resizing_state.id, idx as int);
    }
    let r = resizing_state.initial_block_rect;
    let aw: i64 = blocks[idx].aspect_w;
    let ah: i64 = blocks[idx].aspect_h;

    let new_width: i64 = match delta_world {
        None => MIN_BLOCK_SIZE,
        Some(d) => {
            let x_sign: i64 = match resizing_state.handle {
                ResizeHandle::TopLeft | ResizeHandle::BottomLeft => -1,
                _ => 1,
            };
            let y_sign: i64 = match resizing_state.handle {
                ResizeHandle::TopLeft | ResizeHandle::TopRight => -1,
                _ => 1,
            };
            let iw: i64 = (r.max.x - r.min.x) - BLOCK_PADDING * 2;
            let ih: i64 = (r.max.y - r.min.y) - BLOCK_PADDING * 2;

            let sx: i128 = if x_sign < 0 {
                -(iw as i128)
            } else {
                iw as i128
            };
            let sy: i128 = if y_sign < 0 {
                -(ih as i128)
            } else {
                ih as i128
            };
            let t2x: i128 = sx + 2 * (d.x as i128);
            let ax: u128 = abs128(t2x);
            let width_from_x: u128 = if ax >= MIN_BLOCK_SIZE as u128 {
                ax
            } else {
                MIN_BLOCK_SIZE as u128
            };

            let t2y: i128 = sy + 2 * (d.y as i128);
            let ay: u128 = abs128(t2y);
            proof {
                match resizing_state.handle {
                    ResizeHandle::TopLeft | ResizeHandle::BottomLeft => {
                        assert(handle_x_sign(resizing_state.handle) == -1);
                    },
                    _ => {
                        assert(handle_x_sign(resizing_state.handle) == 1);
                    },
                }
                match resizing_state.handle {
                    ResizeHandle::TopLeft | ResizeHandle::TopRight => {
                        assert(handle_y_sign(resizing_state.handle) == -1);
                    },
                    _ => {
                        assert(handle_y_sign(resizing_state.handle) == 1);
                    },
                }
                assert((iw as int) * -1 == -(iw as int)) by (nonlinear_arith);
                assert((iw as int) * 1 == iw as int) by (nonlinear_arith);
                assert((ih as int) * -1 == -(ih as int)) by (nonlinear_arith);
                assert((ih as int) * 1 == ih as int) by (nonlinear_arith);
                assert(t2x == (iw as int) * handle_x_sign(resizing_state.handle) + 2 * (
                d.x as int));
                assert(t2y == (ih as int) * handle_y_sign(resizing_state.handle) + 2 * (
                d.y as int));
                assert((ay as int) * (aw as int) <= 5000000000000000000000000000int)
                    by (nonlinear_arith)
                    requires
                        0 <= ay as int <= 5000000000000000int,
                        0 <= aw as int <= 1000000000000int,
                ;
            }
            let wq: u128 = (ay * (aw as u128)) / (ah as u128);
            let width_from_y: u128 = if wq >= MIN_BLOCK_SIZE as u128 {
                wq
            } else {
                MIN_BLOCK_SIZE as u128
            };

            let adx: u128 = abs128(d.x as i128);
            let ady: u128 = abs128(d.y as i128);
            let chosen: u128 = if adx >= ady {
                width_from_x
            } else {
                width_from_y
            };
            if chosen > DIM_LIMIT as u128 {
                DIM_LIMIT
            } else {
                chosen as i64
            }
        },
    };

    proof {
        assert((new_width as int) * (ah as int) <= 1000000000000000000000000int)
            by (nonlinear_arith)
            requires
                0 <= new_width as int <= 1000000000000int,
                0 <= ah as int <= 1000000000000int,
        ;
    }
    let hq: u128 = ((new_width as u128) * (ah as u128)) / (aw as u128);
    let new_height: i64 = if hq > DIM_LIMIT as u128 {
        DIM_LIMIT
    } else {
        hq as i64
    };

    let px: i64 = half_trunc((r.min.x + r.max.x) - (new_width + BLOCK_PADDING * 2));
    let py: i64 = half_trunc((r.min.y + r.max.y) - (new_height + BLOCK_PADDING * 2));
    blocks[idx].pos.position = Vec2 { x: px, y: py };
    blocks[idx].image_size = Vec2 { x: new_width, y: new_height };
    blocks[idx].preferred_image_size = Vec2 { x: new_width, y: new_height };

    let ghost nh: int = new_height as int;
    proof {
        assert(blocks@[idx as int] == spec_resized_leader(
            s[idx as int],
            r,
            new_width as int,
            nh,
        ));
    }

    let ghost leader_nw: int = new_width as int;
    if blocks[idx].chained {
        let count = count_chained(blocks);
        proof {
            assert(spec_count_chained(blocks@) == spec_count_chained(s)) by {
                lemma_count_chained_same(blocks@, s);
            }
        }
        if count > 1 {
            let n = blocks.len();
            let mut i: usize = 0;
            while i < n
                invariant
                    n == blocks@.len() == s.len(),
                    i <= n,
                    idx < n,
                    nh == new_height as int,
                    MIN_BLOCK_SIZE <= new_width <= DIM_LIMIT,
                    wf_blocks(s),
                    forall|k: int|
                        0 <= k < s.len() && (#[trigger] s[k]).chained ==> -GESTURE_LIMIT
                            <= s[k].pos.position.x <= GESTURE_LIMIT && -GESTURE_LIMIT
                            <= s[k].pos.position.y <= GESTURE_LIMIT,
                    0 <= nh <= DIM_LIMIT,
                    blocks@[idx as int] == spec_resized_leader(
                        s[idx as int],
                        r,
                        new_width as int,
                        nh,
                    ),
                    forall|j: int|
                        0 <= j < i && j != idx ==> blocks@[j] == (if (#[trigger] s[j]).chained {
                            spec_resized_follower(s[j], nh)
                        } else {
                            s[j]
                        }),
                    forall|j: int|
                        i <= j < n && j != idx ==> #[trigger] blocks@[j] == s[j],
                decreases n - i,
            {
                if i != idx && blocks[i].chained {
                    let baw: i64 = blocks[i].aspect_w;
                    let bah: i64 = blocks[i].aspect_h;
                    proof {
                        assert((nh as int) * (baw as int) <= 1000000000000000000000000int)
                            by (nonlinear_arith)
                            requires
                                0 <= nh <= 1000000000000int,
                                0 <= baw as int <= 1000000000000int,
                        ;
                    }
                    let cq: u128 = ((new_height as u128) * (baw as u128)) / (bah as u128);
                    let cw0: u128 = if cq >= MIN_BLOCK_SIZE as u128 {
                        cq
                    } else {
                        MIN_BLOCK_SIZE as u128
                    };
                    let cw: i64 = if cw0 > DIM_LIMIT as u128 {
                        DIM_LIMIT
                    } else {
                        cw0 as i64
                    };
                    let c2x: i64 = 2 * blocks[i].pos.position.x + blocks[i].image_size.x
                        + BLOCK_PADDING * 2;
                    let c2y: i64 = 2 * blocks[i].pos.position.y + blocks[i].image_size.y
                        + BLOCK_PADDING * 2;
                    let fx: i64 = half_trunc(c2x - (cw + BLOCK_PADDING * 2));
                    let fy: i64 = half_trunc(c2y - (new_height + BLOCK_PADDING * 2));
                    blocks[i].pos.position = Vec2 { x: fx, y: fy };
                    blocks[i].image_size = Vec2 { x: cw, y: new_height };
                    blocks[i].preferred_image_size = Vec2 { x: cw, y: new_height };
                    proof {
                        assert(blocks@[i as int] == spec_resized_follower(s[i as int], nh));
                    }
                }
                i += 1;
            }
        }
    }
    proof {
        let t = blocks@;
        assert forall|k: int| 0 <= k < t.len() implies wf_block(#[trigger] t[k]) by {
            assert(wf_block(s[k]));
            if k == idx as int {
                lemma_leader_wf(s[k], r, leader_nw, nh);
            } else if t[k] == s[k] {
            } else {
                lemma_follower_wf(s[k], nh);
            }
        };
    }
}

/// Chained counts agree on equal sequences.
proof fn lemma_count_chained_same(a: Seq<ImageBlock>, b: Seq<ImageBlock>)
    requires
        a.len() == b.len(),
        forall|i: int| 0 <= i < a.len() ==> a[i].chained == b[i].chained,
    ensures
        spec_count_chained(a) == spec_count_chained(b),
    decreases a.len(),
{
    if a.len() > 0 {
        lemma_count_chained_same(a.drop_last(), b.drop_last());
    }
}

/// Whether some block in the sequence has this identifier.
pub open spec fn has_id(s: Seq<ImageBlock>, id: u128) -> bool {
    exists|i: int| 0 <= i < s.len() && s[i].id == id
}

/// The index of the first block with this identifier, or `None` if the
/// identifier is absent.
pub fn block_index_in_slice(blocks: &Vec<ImageBlock>, id: u128) -> (r: Option<usize>)
    ensures
        match r {
            Some(i) => i < blocks@.len() && blocks@[i as int].id == id && (forall|j: int|
                0 <= j < i ==> blocks@[j].id != id),
            None => !has_id(blocks@, id),
        },
{
    let n = blocks.len();
    let mut i: usize = 0;
    while i < n
        invariant
            n == blocks@.len(),
            i <= n,
            forall|j: int| 0 <= j < i ==> blocks@[j].id != id,
        decreases n - i,
    {
        if blocks[i].id == id {
            return Some(i);
        }
        i += 1;
    }
    None
}

} // verus!
