use flipull_util::block::{blocks_display, Block, Blocks};

#[test]
fn from_inner_accepts_exactly_the_five_ordinals() {
    assert_eq!(Block::from_inner(0), None);
    assert_eq!(Block::from_inner(1), Some(Block::Normal1));
    assert_eq!(Block::from_inner(2), Some(Block::Normal2));
    assert_eq!(Block::from_inner(3), Some(Block::Normal3));
    assert_eq!(Block::from_inner(4), Some(Block::Normal4));
    assert_eq!(Block::from_inner(5), Some(Block::Wild));
    assert_eq!(Block::from_inner(6), None);
    assert_eq!(Block::from_inner(255), None);
}

#[test]
fn to_inner_and_to_index_follow_the_ordinals() {
    assert_eq!(Block::Normal1.to_inner(), 1);
    assert_eq!(Block::Normal4.to_inner(), 4);
    assert_eq!(Block::Wild.to_inner(), 5);
    assert_eq!(Block::Normal1.to_index(), 0);
    assert_eq!(Block::Normal3.to_index(), 2);
    assert_eq!(Block::Wild.to_index(), 4);
}

#[test]
fn is_valid_matches_the_range() {
    assert!(!Block::is_valid(0));
    for v in 1..=5u8 {
        assert!(Block::is_valid(v));
    }
    assert!(!Block::is_valid(6));
}

#[test]
fn all_lists_every_kind_once() {
    let all = Block::all();
    assert_eq!(all.len(), 5);
    for (i, b) in all.iter().enumerate() {
        assert_eq!(b.to_index(), i);
    }
}

#[test]
fn roundtrip_through_raw_encoding() {
    for b in Block::all() {
        assert_eq!(Block::from_inner(b.to_inner()), Some(b));
    }
}

#[test]
fn render_of_empty_board_is_all_dots() {
    let blocks: Blocks = [None; 48];
    let s = blocks_display(&blocks).render();
    assert_eq!(s, "........\n........\n........\n........\n........\n........\n");
}

#[test]
fn render_places_each_kind_at_its_cell() {
    let mut blocks: Blocks = [None; 48];
    blocks[0] = Some(Block::Normal1);
    blocks[1] = Some(Block::Normal2);
    blocks[8] = Some(Block::Normal3);
    blocks[9] = Some(Block::Normal4);
    blocks[47] = Some(Block::Wild);
    let s = blocks_display(&blocks).render();
    assert_eq!(s, "12......\n34......\n........\n........\n........\n.......5\n");
}
