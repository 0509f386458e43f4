//! Animation frame metadata as the engine sees it: the decoder
//! collaborator hands over decoded frames; the engine tracks their
//! dimensions and display durations in milliseconds.

use vstd::prelude::*;
use crate::constants::MAX_FRAME_DURATION_MS;
use crate::geom::Vec2;

verus! {

/// One frame of an animated image: the pixel buffer's dimensions and the
/// display duration in milliseconds. The pixel payload itself stays with
/// the host, keyed by block and frame index.
#[derive(Clone, Copy, PartialEq, Eq, Structural, Debug)]
pub struct AnimationFrame {
    pub width: u32,
    pub height: u32,
    pub duration_ms: u64,
}

/// A frame the engine can animate: its duration is at least one
/// millisecond (see [`sanitize_duration`]) and small enough that elapsed
/// times stay well inside `u64`.
pub open spec fn wf_frame(f: AnimationFrame) -> bool {
    1 <= f.duration_ms <= MAX_FRAME_DURATION_MS
}

/// A zero display duration would stall frame advancement; it is replaced
/// by a nominal sixteen milliseconds (one frame at about sixty hertz).
pub fn sanitize_duration(duration_ms: u64) -> (r: u64)
    ensures
        r == if duration_ms == 0 { 16u64 } else { duration_ms },
{
    if duration_ms == 0 {
        16
    } else {
        duration_ms
    }
}

/// All frames and metadata of one decoded image, static or animated.
pub struct LoadedImage {
    pub frames: Vec<AnimationFrame>,
    pub original_size: Vec2,
    pub has_animation: bool,
}

impl LoadedImage {
    /// Bundles decoded frames; the original size is the first frame's,
    /// or a unit square when there is none.
    pub fn from_frames(frames: Vec<AnimationFrame>, has_animation: bool) -> (r: LoadedImage)
        ensures
            r.frames == frames,
            r.has_animation == has_animation,
            r.original_size == if frames@.len() > 0 {
                Vec2 { x: frames@[0].width as i64, y: frames@[0].height as i64 }
            } else {
                Vec2 { x: 1i64, y: 1i64 }
            },
    {
        let original_size: Vec2 = if frames.len() > 0 {
            Vec2 { x: frames[0].width as i64, y: frames[0].height as i64 }
        } else {
            Vec2 { x: 1, y: 1 }
        };
        LoadedImage { frames, original_size, has_animation }
    }
}

} // verus!
