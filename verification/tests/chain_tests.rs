//! Chain registry tests: toggling, remembered chains, drag and resize
//! propagation, boxing and unboxing, and cascade removal.

use mablocks::block::{
    handle_blocks_resizing, GroupName, ImageBlock, InteractionState, ResizeHandle,
};
use mablocks::block_manager::BlockManager;
use mablocks::constants::MIN_BLOCK_SIZE;
use mablocks::geom::{Rect, Vec2};

fn image_block(w: i64, h: i64) -> ImageBlock {
    ImageBlock::new(String::from("img.png"), Vec::new(), Vec2 { x: w, y: h }, false, false)
}

fn manager_with(n: usize) -> BlockManager {
    let mut m = BlockManager::new();
    for _ in 0..n {
        m.push(image_block(100, 100));
    }
    m
}

#[test]
fn toggle_chain_sets_and_clears_one_block() {
    let mut m = manager_with(2);
    m.toggle_chain(1);
    assert!(!m.blocks()[0].chained);
    assert!(m.blocks()[1].chained);
    assert_eq!(m.chained_count(), 1);
    m.toggle_chain(1);
    assert_eq!(m.chained_count(), 0);
}

#[test]
fn chain_drag_moves_all_members_by_same_delta() {
    let mut m = manager_with(3);
    m.reflow(2000);
    m.toggle_chain(0);
    m.toggle_chain(1);
    m.toggle_chain(2);
    let before: Vec<Vec2> = m.blocks().iter().map(|b| b.pos.position).collect();
    let target = Vec2 { x: before[1].x + 70, y: before[1].y - 30 };
    m.apply_drag(1, target);
    for (i, b) in m.blocks().iter().enumerate() {
        assert_eq!(b.pos.position.x - before[i].x, 70);
        assert_eq!(b.pos.position.y - before[i].y, -30);
    }
}

#[test]
fn drag_of_unchained_block_moves_only_it() {
    let mut m = manager_with(2);
    m.reflow(2000);
    let before: Vec<Vec2> = m.blocks().iter().map(|b| b.pos.position).collect();
    m.apply_drag(0, Vec2 { x: 500, y: 700 });
    assert_eq!(m.blocks()[0].pos.position, Vec2 { x: 500, y: 700 });
    assert_eq!(m.blocks()[1].pos.position, before[1]);
}

#[test]
fn remembered_chain_round_trip() {
    let mut m = manager_with(4);
    m.toggle_chain(0);
    m.toggle_chain(1);
    m.toggle_chain(2);
    m.clear_chain_group();
    assert_eq!(m.chained_count(), 0);
    assert_eq!(m.remembered_chains().len(), 1);
    // Toggling one former member restores the whole set.
    m.toggle_chain(0);
    assert!(m.blocks()[0].chained);
    assert!(m.blocks()[1].chained);
    assert!(m.blocks()[2].chained);
    assert!(!m.blocks()[3].chained);
}

#[test]
fn clearing_a_single_block_remembers_nothing() {
    let mut m = manager_with(2);
    m.toggle_chain(0);
    m.clear_chain_group();
    assert_eq!(m.remembered_chains().len(), 0);
    assert_eq!(m.chained_count(), 0);
}

#[test]
fn overlapping_remembered_chain_is_evicted() {
    let mut m = manager_with(3);
    m.toggle_chain(0);
    m.toggle_chain(1);
    m.clear_chain_group();
    assert_eq!(m.remembered_chains().len(), 1);
    // A new chain sharing block 1 evicts the old one.
    m.toggle_chain(1);
    // Restoring chained {0, 1}; unchain 0, chain 2 -> set {1, 2}.
    m.toggle_chain(0);
    m.toggle_chain(2);
    m.clear_chain_group();
    assert_eq!(m.remembered_chains().len(), 1);
    let chain = &m.remembered_chains()[0];
    assert_eq!(chain.len(), 2);
    assert!(chain.contains(&m.blocks()[1].id));
    assert!(chain.contains(&m.blocks()[2].id));
}

#[test]
fn box_unbox_round_trip() {
    let mut m = manager_with(2);
    let id_a = m.blocks()[0].id;
    let id_b = m.blocks()[1].id;
    m.toggle_chain(0);
    m.toggle_chain(1);
    let gid = m.box_chained();
    assert_ne!(gid, 0);
    assert_eq!(m.len(), 1);
    assert!(m.blocks()[0].group.is_group);
    assert_eq!(m.blocks()[0].id, gid);
    let children = &m.blocks()[0].group.children;
    assert_eq!(children.len(), 2);
    assert_eq!(children[0].id, id_a);
    assert_eq!(children[1].id, id_b);
    match &m.blocks()[0].group.group_name {
        GroupName::Multiple { count } => assert_eq!(*count, 2),
        other => panic!("unexpected group name {:?}", other),
    }

    let unboxed = m.unbox_group(0);
    assert_eq!(unboxed, vec![id_a, id_b]);
    assert_eq!(m.len(), 2);
    assert_eq!(m.blocks()[0].id, id_a);
    assert_eq!(m.blocks()[1].id, id_b);
    assert!(!m.blocks()[0].chained);
    assert!(!m.blocks()[1].chained);
}

#[test]
fn box_group_takes_minimum_corner() {
    let mut m = manager_with(2);
    m.apply_drag(0, Vec2 { x: 200, y: 40 });
    m.apply_drag(1, Vec2 { x: 90, y: 160 });
    m.toggle_chain(0);
    m.toggle_chain(1);
    m.box_chained();
    assert_eq!(m.blocks()[0].pos.position, Vec2 { x: 90, y: 40 });
}

#[test]
fn box_with_nothing_chained_is_refused() {
    let mut m = manager_with(2);
    let gid = m.box_chained();
    assert_eq!(gid, 0);
    assert_eq!(m.len(), 2);
}

#[test]
fn unboxed_children_enter_at_group_boundary() {
    let mut m = BlockManager::new();
    m.push(image_block(50, 50));
    m.toggle_chain(0);
    let gid = m.box_chained();
    // A second group and a plain block around the boundary.
    m.push(image_block(60, 60));
    let plain_id = m.blocks()[1].id;
    let gidx = m.index_of(gid).unwrap();
    let unboxed = m.unbox_group(gidx);
    assert_eq!(unboxed.len(), 1);
    // The child re-enters before the plain block (at the boundary).
    assert_eq!(m.blocks()[0].id, unboxed[0]);
    assert_eq!(m.blocks()[1].id, plain_id);
}

#[test]
fn toggle_compact_boxes_then_unboxes_then_reboxes() {
    let mut m = manager_with(3);
    m.toggle_chain(0);
    m.toggle_chain(1);
    // Two chained non-groups: box them.
    m.toggle_compact_group();
    assert_eq!(m.len(), 2);
    assert!(m.blocks()[0].group.is_group);
    let gid = m.blocks()[0].id;
    // Nothing chained, a group was just boxed: unbox it.
    m.toggle_compact_group();
    assert_eq!(m.len(), 3);
    assert!(m.index_of(gid).is_none());
    // Nothing chained, a set was just unboxed: box it again.
    m.toggle_compact_group();
    assert_eq!(m.len(), 2);
    assert!(m.blocks()[0].group.is_group);
}

#[test]
fn toggle_compact_unboxes_single_chained_group() {
    let mut m = manager_with(2);
    m.toggle_chain(0);
    m.toggle_chain(1);
    let gid = m.box_chained();
    let gidx = m.index_of(gid).unwrap();
    m.toggle_chain(gidx);
    m.toggle_compact_group();
    assert_eq!(m.len(), 2);
    assert!(!m.blocks()[0].group.is_group);
}

#[test]
fn drop_into_group_nests_the_block() {
    let mut m = manager_with(1);
    m.toggle_chain(0);
    let gid = m.box_chained();
    m.push(image_block(70, 70));
    let dropped_id = m.blocks()[1].id;
    m.drop_into_group(1, 0);
    assert_eq!(m.len(), 1);
    assert_eq!(m.blocks()[0].id, gid);
    let children = &m.blocks()[0].group.children;
    assert_eq!(children.len(), 2);
    assert_eq!(children[1].id, dropped_id);
    assert!(!children[1].chained);
}

#[test]
fn chained_drop_moves_all_chained_blocks_into_group() {
    let mut m = manager_with(1);
    m.toggle_chain(0);
    m.box_chained();
    m.push(image_block(70, 70));
    m.push(image_block(80, 80));
    let id_a = m.blocks()[1].id;
    let id_b = m.blocks()[2].id;
    m.toggle_chain(1);
    m.toggle_chain(2);
    m.drop_into_group(1, 0);
    assert_eq!(m.len(), 1);
    let children = &m.blocks()[0].group.children;
    assert_eq!(children.len(), 3);
    assert_eq!(children[1].id, id_a);
    assert_eq!(children[2].id, id_b);
}

#[test]
fn remove_cascade_removes_all_chained_blocks() {
    let mut m = manager_with(3);
    let id_keep = m.blocks()[1].id;
    m.toggle_chain(0);
    m.toggle_chain(2);
    let removed = m.remove_cascade(0);
    assert_eq!(m.len(), 1);
    assert_eq!(m.blocks()[0].id, id_keep);
    assert_eq!(removed.len(), 2);
}

#[test]
fn remove_cascade_on_unchained_block_removes_only_it() {
    let mut m = manager_with(2);
    let id0 = m.blocks()[0].id;
    let removed = m.remove_cascade(0);
    assert_eq!(removed, vec![id0]);
    assert_eq!(m.len(), 1);
}

#[test]
fn remove_with_children_reports_subtree_ids() {
    let mut m = manager_with(2);
    let id_a = m.blocks()[0].id;
    let id_b = m.blocks()[1].id;
    m.toggle_chain(0);
    m.toggle_chain(1);
    let gid = m.box_chained();
    let removed = m.remove_with_children(0);
    assert_eq!(removed, vec![gid, id_a, id_b]);
    assert_eq!(m.len(), 0);
}

#[test]
fn resize_to_degenerate_width_falls_back_to_minimum() {
    let mut m = manager_with(1);
    let id = m.blocks()[0].id;
    let state = InteractionState {
        id,
        handle: ResizeHandle::BottomRight,
        initial_block_rect: Rect {
            min: Vec2 { x: 0, y: 0 },
            max: Vec2 { x: 108, y: 108 },
        },
    };
    handle_blocks_resizing(m.blocks_mut(), &state, None);
    assert_eq!(m.blocks()[0].image_size.x, MIN_BLOCK_SIZE);
}

#[test]
fn resize_propagates_height_to_chained_blocks() {
    let mut m = BlockManager::new();
    // Leader 100x100 (1:1), follower 200x100 (2:1).
    m.push(image_block(100, 100));
    m.push(image_block(200, 100));
    m.reflow(2000);
    m.toggle_chain(0);
    m.toggle_chain(1);
    let id = m.blocks()[0].id;
    let rect = Rect {
        min: m.blocks()[0].pos.position,
        max: Vec2 {
            x: m.blocks()[0].pos.position.x + 108,
            y: m.blocks()[0].pos.position.y + 108,
        },
    };
    let state = InteractionState { id, handle: ResizeHandle::BottomRight, initial_block_rect: rect };
    // Pull the corner 50 to the right: width 100 + 2*50 = 200.
    handle_blocks_resizing(m.blocks_mut(), &state, Some(Vec2 { x: 50, y: 0 }));
    assert_eq!(m.blocks()[0].image_size, Vec2 { x: 200, y: 200 });
    // The follower matches the height through its own 2:1 ratio.
    assert_eq!(m.blocks()[1].image_size, Vec2 { x: 400, y: 200 });
}

#[test]
fn resize_ignores_vanished_block() {
    let mut m = manager_with(1);
    let before = m.blocks()[0].image_size;
    let state = InteractionState {
        id: 424242,
        handle: ResizeHandle::TopLeft,
        initial_block_rect: Rect { min: Vec2 { x: 0, y: 0 }, max: Vec2 { x: 108, y: 108 } },
    };
    handle_blocks_resizing(m.blocks_mut(), &state, Some(Vec2 { x: 10, y: 10 }));
    assert_eq!(m.blocks()[0].image_size, before);
}
