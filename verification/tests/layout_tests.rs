//! Layout engine tests: reflow packing, ordering, and drop insertion.

use mablocks::block::{GroupName, ImageBlock};
use mablocks::block_manager::BlockManager;
use mablocks::constants::{ALIGN_SPACING, BLOCK_PADDING, CANVAS_PADDING};
use mablocks::geom::Vec2;

fn image_block(w: i64, h: i64) -> ImageBlock {
    ImageBlock::new(String::from("img.png"), Vec::new(), Vec2 { x: w, y: h }, false, false)
}

fn group_block() -> ImageBlock {
    ImageBlock::new_group(GroupName::Empty, Vec::new())
}

#[test]
fn test_should_insert_before() {
    // Same row, leader is to the left
    assert!(BlockManager::should_insert_before(
        Vec2 { x: 100, y: 50 },
        Vec2 { x: 200, y: 50 }
    ));
    // Same row, leader is to the right
    assert!(!BlockManager::should_insert_before(
        Vec2 { x: 200, y: 50 },
        Vec2 { x: 100, y: 50 }
    ));
    // Leader is above (different quantized row)
    assert!(BlockManager::should_insert_before(
        Vec2 { x: 100, y: 50 },
        Vec2 { x: 100, y: 250 }
    ));
    // Leader is below
    assert!(!BlockManager::should_insert_before(
        Vec2 { x: 100, y: 250 },
        Vec2 { x: 100, y: 50 }
    ));
}

#[test]
fn reflow_packs_rows_left_to_right() {
    let mut m = BlockManager::new();
    m.push(image_block(100, 100));
    m.push(image_block(100, 100));
    m.reflow(800);
    let outer = 100 + 2 * BLOCK_PADDING;
    assert_eq!(m.blocks()[0].pos.position, Vec2 { x: CANVAS_PADDING, y: CANVAS_PADDING });
    assert_eq!(
        m.blocks()[1].pos.position,
        Vec2 { x: CANVAS_PADDING + outer + ALIGN_SPACING, y: CANVAS_PADDING }
    );
}

#[test]
fn reflow_wraps_when_row_full() {
    let mut m = BlockManager::new();
    m.push(image_block(300, 50));
    m.push(image_block(300, 50));
    // Inner width 400: the second block (outer 308) cannot follow the
    // first (cursor at 32 + 308 + 24 = 364; 364 + 308 > 432).
    m.reflow(400);
    assert_eq!(m.blocks()[0].pos.position, Vec2 { x: CANVAS_PADDING, y: CANVAS_PADDING });
    let row_height = 50 + 2 * BLOCK_PADDING;
    assert_eq!(
        m.blocks()[1].pos.position,
        Vec2 { x: CANVAS_PADDING, y: CANVAS_PADDING + row_height + ALIGN_SPACING }
    );
}

#[test]
fn reflow_is_idempotent() {
    let mut m = BlockManager::new();
    m.push(image_block(300, 150));
    m.push(image_block(120, 260));
    m.push(group_block());
    m.reflow(500);
    let first: Vec<Vec2> = m.blocks().iter().map(|b| b.pos.position).collect();
    m.reflow(500);
    let second: Vec<Vec2> = m.blocks().iter().map(|b| b.pos.position).collect();
    assert_eq!(first, second);
}

#[test]
fn reflow_respects_right_edge() {
    let mut m = BlockManager::new();
    m.push(image_block(900, 100));
    m.push(image_block(50, 50));
    m.push(image_block(200, 70));
    m.reflow(400);
    for b in m.blocks().iter() {
        let right = b.pos.position.x + b.image_size.x + 2 * BLOCK_PADDING;
        assert!(right <= CANVAS_PADDING + 400);
    }
}

#[test]
fn reflow_clamps_oversized_blocks() {
    let mut m = BlockManager::new();
    // 900 wide, 300 tall: aspect 3:1. At inner width 400 the image is
    // clamped to 392 wide, 130 tall (integer division).
    m.push(image_block(900, 300));
    m.reflow(400);
    assert_eq!(m.blocks()[0].image_size.x, 392);
    assert_eq!(m.blocks()[0].image_size.y, 130);
    // The preferred size survives, so a wider canvas restores it.
    m.reflow(2000);
    assert_eq!(m.blocks()[0].image_size, Vec2 { x: 900, y: 300 });
}

#[test]
fn reflow_starts_new_row_on_category_change() {
    let mut m = BlockManager::new();
    m.push(group_block());
    m.push(image_block(50, 50));
    m.reflow(2000);
    // Both would fit one row; the category change forces a break.
    assert!(m.blocks()[0].pos.position.y < m.blocks()[1].pos.position.y);
}

#[test]
fn reorder_without_leader_sorts_groups_first() {
    let mut m = BlockManager::new();
    m.push(image_block(60, 60));
    m.push(group_block());
    m.reorder_and_reflow(None, 2000);
    assert!(m.blocks()[0].group.is_group);
    assert!(!m.blocks()[1].group.is_group);
}

#[test]
fn reorder_with_vanished_leader_is_noop() {
    let mut m = BlockManager::new();
    m.push(image_block(60, 60));
    let before = m.blocks()[0].pos.position;
    m.reorder_and_reflow(Some(12345), 2000);
    assert_eq!(m.blocks()[0].pos.position, before);
}

#[test]
fn reorder_moves_leader_to_dropped_row() {
    let mut m = BlockManager::new();
    m.push(image_block(100, 100));
    m.push(image_block(100, 100));
    m.push(image_block(100, 100));
    m.reflow(150);
    // Three rows of one block each at inner width 150. Drag the first
    // block below the last row: it must sort to the end.
    let first_id = m.blocks()[0].id;
    let last_y = m.blocks()[2].pos.position.y;
    m.apply_drag(0, Vec2 { x: 40, y: last_y + 300 });
    m.reorder_and_reflow(Some(first_id), 150);
    assert_eq!(m.blocks()[2].id, first_id);
}

#[test]
fn max_block_height_ignores_groups() {
    let mut m = BlockManager::new();
    m.push(image_block(60, 70));
    m.push(image_block(50, 120));
    m.push(group_block());
    assert_eq!(m.max_block_height(), 120);
    let empty = BlockManager::new();
    assert_eq!(empty.max_block_height(), 0);
}

#[test]
fn cmp_layout_orders_groups_then_rows_then_x() {
    let g = group_block();
    let mut a = image_block(50, 50);
    let mut b = image_block(50, 50);
    a.pos.position = Vec2 { x: 500, y: 10 };
    b.pos.position = Vec2 { x: 10, y: 50 };
    // Same quantized row (0): x decides.
    assert_eq!(a.cmp_layout(&b), std::cmp::Ordering::Greater);
    b.pos.position.y = 150;
    // Different quantized rows now.
    assert_eq!(a.cmp_layout(&b), std::cmp::Ordering::Less);
    // Groups always come first.
    assert_eq!(g.cmp_layout(&a), std::cmp::Ordering::Less);
    assert_eq!(a.cmp_layout(&g), std::cmp::Ordering::Greater);
}
