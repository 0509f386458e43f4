//! Animation and cache policy tests: frame advancement, playback
//! control, counters, and the bounded frame cache.

use mablocks::block::ImageBlock;
use mablocks::block_manager::BlockManager;
use mablocks::constants::MAX_CACHED_ANIMATIONS;
use mablocks::frames::{sanitize_duration, AnimationFrame, LoadedImage};
use mablocks::geom::Vec2;

fn frame(ms: u64) -> AnimationFrame {
    AnimationFrame { width: 10, height: 10, duration_ms: ms }
}

fn animated_block(durations: &[u64]) -> ImageBlock {
    let frames: Vec<AnimationFrame> = durations.iter().map(|&d| frame(d)).collect();
    let multi = frames.len() > 1;
    ImageBlock::new(String::from("anim.gif"), frames, Vec2 { x: 10, y: 10 }, multi, multi)
}

#[test]
fn sanitize_duration_replaces_zero() {
    assert_eq!(sanitize_duration(0), 16);
    assert_eq!(sanitize_duration(5), 5);
    assert_eq!(sanitize_duration(1000), 1000);
}

#[test]
fn loaded_image_takes_size_from_first_frame() {
    let img = LoadedImage::from_frames(vec![frame(100), frame(100)], true);
    assert_eq!(img.original_size, Vec2 { x: 10, y: 10 });
    assert!(img.has_animation);
    let empty = LoadedImage::from_frames(Vec::new(), false);
    assert_eq!(empty.original_size, Vec2 { x: 1, y: 1 });
}

#[test]
fn update_animation_cycles_frames() {
    let mut b = animated_block(&[100, 100]);
    b.toggle_animation();
    assert!(b.anim.animation_enabled);
    let updated = b.update_animation(250);
    assert!(updated);
    // 250 ms: one full cycle (200 ms) plus 50 ms into frame 0.
    assert_eq!(b.anim.current_frame, 0);
    assert_eq!(b.anim.frame_elapsed, 50);
    assert_eq!(b.time_until_next_frame(), Some(50));
    let updated = b.update_animation(20);
    assert!(!updated);
    assert_eq!(b.anim.frame_elapsed, 70);
}

#[test]
fn update_animation_does_nothing_when_disabled() {
    let mut b = animated_block(&[100, 100]);
    assert!(!b.update_animation(500));
    assert_eq!(b.anim.frame_elapsed, 0);
    assert_eq!(b.time_until_next_frame(), None);
}

#[test]
fn single_frame_block_never_animates() {
    let mut b = animated_block(&[100]);
    b.toggle_animation();
    assert!(!b.anim.animation_enabled);
    assert!(!b.update_animation(500));
}

#[test]
fn stop_animation_rewinds() {
    let mut b = animated_block(&[100, 100, 100]);
    b.toggle_animation();
    b.update_animation(150);
    assert_eq!(b.anim.current_frame, 1);
    b.stop_animation();
    assert!(!b.anim.animation_enabled);
    assert_eq!(b.anim.current_frame, 0);
    assert_eq!(b.anim.frame_elapsed, 0);
}

#[test]
fn cache_bound_evicts_least_recently_used() {
    let mut m = BlockManager::new();
    for _ in 0..(MAX_CACHED_ANIMATIONS + 1) {
        m.push(animated_block(&[100, 100, 100]));
    }
    let ids: Vec<u128> = m.blocks().iter().map(|b| b.id).collect();
    for &id in &ids {
        m.mark_animation_used(id);
    }
    // Exactly the first marked block lost its extra frames.
    let first = m.get(ids[0]).unwrap();
    assert_eq!(first.anim.frames.len(), 1);
    assert!(!first.is_full_sequence);
    assert!(!first.anim.animation_enabled);
    for &id in &ids[1..] {
        let b = m.get(id).unwrap();
        assert_eq!(b.anim.frames.len(), 3);
        assert!(b.is_full_sequence);
    }
    assert_eq!(m.animation_access_order().len(), MAX_CACHED_ANIMATIONS);
}

#[test]
fn marking_again_refreshes_recency() {
    let mut m = BlockManager::new();
    for _ in 0..(MAX_CACHED_ANIMATIONS + 1) {
        m.push(animated_block(&[100, 100]));
    }
    let ids: Vec<u128> = m.blocks().iter().map(|b| b.id).collect();
    for &id in &ids[..MAX_CACHED_ANIMATIONS] {
        m.mark_animation_used(id);
    }
    // Refresh the oldest, then add one more: the second-oldest goes.
    m.mark_animation_used(ids[0]);
    m.mark_animation_used(ids[MAX_CACHED_ANIMATIONS]);
    assert_eq!(m.get(ids[0]).unwrap().anim.frames.len(), 2);
    assert_eq!(m.get(ids[1]).unwrap().anim.frames.len(), 1);
}

#[test]
fn removing_a_block_forgets_its_cache_entry() {
    let mut m = BlockManager::new();
    m.push(animated_block(&[100, 100]));
    let id = m.blocks()[0].id;
    m.mark_animation_used(id);
    assert_eq!(m.animation_access_order().len(), 1);
    m.remove(0);
    assert_eq!(m.animation_access_order().len(), 0);
}

#[test]
fn counters_tally_and_reset_recursively() {
    let mut m = BlockManager::new();
    m.push(animated_block(&[100]));
    m.push(animated_block(&[100]));
    if let Some(b) = m.get_by_index_mut(0) {
        b.increment_counter();
        b.increment_counter();
    }
    if let Some(b) = m.get_by_index_mut(1) {
        b.increment_counter();
    }
    assert_eq!(m.blocks()[0].counter, 2);
    // Boxing keeps the children's counters.
    m.toggle_chain(0);
    m.toggle_chain(1);
    m.box_chained();
    assert_eq!(m.blocks()[0].group.children[0].counter, 2);
    m.reset_all_counters();
    assert_eq!(m.blocks()[0].group.children[0].counter, 0);
    assert_eq!(m.blocks()[0].group.children[1].counter, 0);
}

#[test]
fn decrement_counter_floors_at_zero() {
    let mut b = animated_block(&[100]);
    b.increment_counter();
    b.decrement_counter();
    b.decrement_counter();
    assert_eq!(b.counter, 0);
}

#[test]
fn fresh_blocks_have_nonzero_distinct_looking_ids() {
    let a = animated_block(&[100]);
    let b = animated_block(&[100]);
    assert_ne!(a.id, 0);
    assert_ne!(b.id, 0);
    assert_ne!(a.id, b.id);
}

#[test]
fn aspect_ratio_is_fixed_at_creation() {
    let b = ImageBlock::new(String::from("x.png"), Vec::new(), Vec2 { x: 300, y: 150 }, false, false);
    assert_eq!(b.aspect_w, 300);
    assert_eq!(b.aspect_h, 150);
    // A zero-height source gets the neutral ratio.
    let z = ImageBlock::new(String::from("z.png"), Vec::new(), Vec2 { x: 300, y: 0 }, false, false);
    assert_eq!(z.aspect_w, 1);
    assert_eq!(z.aspect_h, 1);
}

#[test]
fn constrain_to_width_shrinks_but_never_grows() {
    let mut b = ImageBlock::new(String::from("x.png"), Vec::new(), Vec2 { x: 400, y: 200 }, false, false);
    b.constrain_to_width(100);
    assert_eq!(b.image_size, Vec2 { x: 100, y: 50 });
    assert_eq!(b.preferred_image_size, Vec2 { x: 400, y: 200 });
    b.reset_to_preferred_size();
    b.constrain_to_width(1000);
    assert_eq!(b.image_size, Vec2 { x: 400, y: 200 });
}
