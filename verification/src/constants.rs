//! Layout and capacity constants, in integer canvas units.

use vstd::prelude::*;

verus! {

/// Internal padding within a block, separating the image from its border.
pub const BLOCK_PADDING: i64 = 4;

/// Minimum size for a block's width, so it stays visible and interactable.
pub const MIN_BLOCK_SIZE: i64 = 50;

/// Vertical height used to quantize block positions into rows for ordering.
pub const ROW_QUANTIZATION_HEIGHT: i64 = 100;

/// Default size for new group blocks.
pub const DEFAULT_GROUP_SIZE: i64 = 160;

/// Spacing between the canvas edges and the blocks.
pub const CANVAS_PADDING: i64 = 32;

/// Horizontal and vertical spacing between blocks.
pub const ALIGN_SPACING: i64 = 24;

/// Minimum width the canvas can take: one minimum-size block plus padding.
pub const MIN_CANVAS_INNER_WIDTH: i64 = MIN_BLOCK_SIZE + BLOCK_PADDING * 2;

/// Maximum number of blocks that may hold a full animation sequence at once.
pub const MAX_CACHED_ANIMATIONS: usize = 20;

/// Maximum number of frames kept for one animation.
pub const MAX_ANIMATION_FRAMES: usize = 1024;

/// Ceiling on an image dimension, in canvas units; height and width
/// computations clamp to it so that all layout arithmetic stays in `i64`.
pub const DIM_LIMIT: i64 = 1_000_000_000_000;

/// Ceiling on the magnitude of a block coordinate in a well-formed state.
pub const COORD_LIMIT: i64 = 4_000_000_000_000_000_000;

/// Range within which gesture inputs (drag targets, resize rectangles and
/// deltas) must lie so that propagating them cannot overflow `i64`.
pub const GESTURE_LIMIT: i64 = 1_000_000_000_000_000;

/// Ceiling on the total number of blocks, nested children included, so
/// that accumulated row offsets fit in `i64`.
pub const MAX_TOTAL_BLOCKS: usize = 1_000_000;

/// Ceiling on one frame's display duration, in milliseconds, so that
/// accumulated elapsed times fit in `u64`.
pub const MAX_FRAME_DURATION_MS: u64 = 1_000_000_000_000;

} // verus!
