//! Manager bookkeeping tests: lookup, identifiers, group naming, and
//! the guards around stale or missing blocks.

use mablocks::block::{BlockControlHover, GroupName, ImageBlock};
use mablocks::block_manager::BlockManager;
use mablocks::geom::{Rect, Vec2};

fn image_block(path: &str, w: i64, h: i64) -> ImageBlock {
    ImageBlock::new(String::from(path), Vec::new(), Vec2 { x: w, y: h }, false, false)
}

#[test]
fn index_of_and_get_find_blocks_by_id() {
    let mut m = BlockManager::new();
    m.push(image_block("a.png", 50, 50));
    m.push(image_block("b.png", 60, 60));
    let id_b = m.blocks()[1].id;
    assert_eq!(m.index_of(id_b), Some(1));
    assert_eq!(m.get(id_b).unwrap().path, "b.png");
    assert!(m.index_of(999).is_none());
    assert!(m.get(999).is_none());
}

#[test]
fn get_mut_edits_the_right_block() {
    let mut m = BlockManager::new();
    m.push(image_block("a.png", 50, 50));
    let id = m.blocks()[0].id;
    if let Some(b) = m.get_mut(id) {
        b.increment_counter();
    }
    assert_eq!(m.blocks()[0].counter, 1);
    assert!(m.get_mut(999).is_none());
}

#[test]
fn remove_by_id_returns_the_block_or_nothing() {
    let mut m = BlockManager::new();
    m.push(image_block("a.png", 50, 50));
    let id = m.blocks()[0].id;
    assert!(m.remove_by_id(424242).is_none());
    assert_eq!(m.len(), 1);
    let removed = m.remove_by_id(id).unwrap();
    assert_eq!(removed.id, id);
    assert_eq!(m.len(), 0);
}

#[test]
fn block_ids_lists_identifiers_in_order() {
    let mut m = BlockManager::new();
    m.push(image_block("a.png", 50, 50));
    m.push(image_block("b.png", 50, 50));
    let ids = m.block_ids();
    assert_eq!(ids.len(), 2);
    assert_eq!(ids[0], m.blocks()[0].id);
    assert_eq!(ids[1], m.blocks()[1].id);
}

#[test]
fn allocate_block_id_counts_up() {
    let mut m = BlockManager::new();
    assert_eq!(m.allocate_block_id(), 0);
    assert_eq!(m.allocate_block_id(), 1);
    assert_eq!(m.next_block_id(), 2);
}

#[test]
fn find_group_at_pos_respects_exclusion() {
    let mut m = BlockManager::new();
    m.push(image_block("a.png", 50, 50));
    m.toggle_chain(0);
    let gid = m.box_chained();
    m.reflow(2000);
    let inside = m.blocks()[0].pos.position;
    assert_eq!(m.find_group_at_pos(inside, 0), Some(0));
    // The group cannot be its own drop target.
    assert_eq!(m.find_group_at_pos(inside, gid), None);
    // A point far away hits nothing.
    assert_eq!(m.find_group_at_pos(Vec2 { x: -5000, y: -5000 }, 0), None);
}

#[test]
fn enforce_chain_constraints_clears_only_when_empty() {
    let mut m = BlockManager::new();
    m.push(image_block("a.png", 50, 50));
    m.toggle_chain(0);
    m.enforce_chain_constraints();
    assert_eq!(m.chained_count(), 1);
    m.remove(0);
    m.enforce_chain_constraints();
    assert_eq!(m.chained_count(), 0);
}

#[test]
fn boxing_one_block_names_the_group_after_it() {
    let mut m = BlockManager::new();
    m.push(image_block("pictures/cat.png", 50, 50));
    m.toggle_chain(0);
    m.box_chained();
    match &m.blocks()[0].group.group_name {
        GroupName::Single { path } => assert_eq!(path, "pictures/cat.png"),
        other => panic!("unexpected group name {:?}", other),
    }
}

#[test]
fn group_name_follows_the_child_set() {
    let mut b = ImageBlock::new_group(GroupName::Empty, Vec::new());
    b.update_group_name();
    assert!(matches!(b.group.group_name, GroupName::Empty));
    b.group.children.push(image_block("one.png", 10, 10));
    b.group.children.push(image_block("two.png", 10, 10));
    b.update_group_name();
    assert!(matches!(b.group.group_name, GroupName::Multiple { count: 2 }));
}

#[test]
fn unboxing_a_non_group_just_removes_it() {
    let mut m = BlockManager::new();
    m.push(image_block("a.png", 50, 50));
    let unboxed = m.unbox_group(0);
    assert!(unboxed.is_empty());
    assert_eq!(m.len(), 0);
}

#[test]
fn clear_forgets_blocks_and_cache() {
    let mut m = BlockManager::new();
    m.push(image_block("a.png", 50, 50));
    let id = m.blocks()[0].id;
    m.mark_animation_used(id);
    m.clear();
    assert!(m.is_empty());
    assert!(m.animation_access_order().is_empty());
}

#[test]
fn loaded_chains_restore_on_toggle() {
    let mut m = BlockManager::new();
    m.push(image_block("a.png", 50, 50));
    m.push(image_block("b.png", 50, 50));
    let ids = m.block_ids();
    // As a session load would: hand the manager a remembered chain.
    m.set_remembered_chains(vec![vec![ids[0], ids[1]]]);
    m.toggle_chain(1);
    assert!(m.blocks()[0].chained);
    assert!(m.blocks()[1].chained);
}

#[test]
fn rects_and_hover_flags_follow_geometry() {
    let mut b = image_block("a.png", 100, 50);
    b.pos.position = Vec2 { x: 10, y: 20 };
    let r = b.rect();
    assert_eq!(r.min, Vec2 { x: 10, y: 20 });
    assert_eq!(r.max, Vec2 { x: 10 + 108, y: 20 + 58 });

    let close = Rect { min: Vec2 { x: 0, y: 0 }, max: Vec2 { x: 10, y: 10 } };
    let chain = Rect { min: Vec2 { x: 20, y: 0 }, max: Vec2 { x: 30, y: 10 } };
    let counter = Rect { min: Vec2 { x: 40, y: 0 }, max: Vec2 { x: 50, y: 10 } };
    let rects = (close, chain, counter);
    let h = BlockControlHover::from_mouse_pos(Some(Vec2 { x: 25, y: 5 }), &rects, false);
    assert!(!h.close_hovered && h.chain_hovered && !h.counter_hovered);
    let g = BlockControlHover::from_mouse_pos(Some(Vec2 { x: 45, y: 5 }), &rects, true);
    assert!(!g.counter_hovered);
    let n = BlockControlHover::from_mouse_pos(None, &rects, false);
    assert_eq!(n, BlockControlHover::default());
}
