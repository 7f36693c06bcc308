use regvm::layout::Layout;

#[test]
fn layout() {
    // Create a Layout object
    let mut layout = Layout::new();
    let block0 = 0;
    let block1 = 1;
    let inst = 0;

    // Append 2 blocks and 1 instruction to the first block
    layout.append_block(block0);
    layout.append_inst(inst, block0);
    layout.append_block(block1);

    // Check the presence of blocks
    assert!(layout.is_block_inserted(block0));
    assert!(layout.is_block_inserted(block1));
    assert!(!layout.is_block_inserted(block1 + 1));

    // Check the block's layout
    assert_eq!(layout.next_block(block0), Some(block1));

    // Check instruction's block reference
    assert_eq!(layout.inst_block(inst), Some(block0));
}

#[test]
fn empty_layout_has_no_blocks() {
    let layout = Layout::new();
    assert!(!layout.is_block_inserted(0));
    assert_eq!(layout.next_block(0), None);
    assert_eq!(layout.inst_block(0), None);
    assert_eq!(layout.block_order(), Vec::<u32>::new());
    let mut it = layout.blocks();
    assert_eq!(it.next(), None);
}

#[test]
fn blocks_are_visited_once_in_append_order() {
    let mut layout = Layout::new();
    layout.append_block(7);
    layout.append_block(3);
    layout.append_block(4_000_000_000);
    layout.append_block(0);
    assert_eq!(layout.block_order(), vec![7, 3, 4_000_000_000, 0]);

    let mut it = layout.blocks();
    assert_eq!(it.next(), Some(7));
    assert_eq!(it.next(), Some(3));
    assert_eq!(it.next(), Some(4_000_000_000));
    assert_eq!(it.next(), Some(0));
    assert_eq!(it.next(), None);
    assert_eq!(it.next(), None);

    assert_eq!(layout.next_block(7), Some(3));
    assert_eq!(layout.next_block(3), Some(4_000_000_000));
    assert_eq!(layout.next_block(4_000_000_000), Some(0));
    assert_eq!(layout.next_block(0), None);
    assert_eq!(layout.next_block(99), None);
}

#[test]
fn first_block_with_id_zero_is_inserted() {
    let mut layout = Layout::new();
    layout.append_block(0);
    assert!(layout.is_block_inserted(0));
    assert!(!layout.is_block_inserted(1));
}

#[test]
fn every_instruction_keeps_the_block_it_was_appended_to() {
    let mut layout = Layout::new();
    layout.append_block(10);
    layout.append_block(20);
    layout.append_inst(1, 10);
    layout.append_inst(2, 20);
    layout.append_inst(3, 10);
    layout.append_block(30);
    layout.append_inst(4, 30);
    layout.append_inst(5, 10);
    assert_eq!(layout.inst_block(1), Some(10));
    assert_eq!(layout.inst_block(2), Some(20));
    assert_eq!(layout.inst_block(3), Some(10));
    assert_eq!(layout.inst_block(4), Some(30));
    assert_eq!(layout.inst_block(5), Some(10));
    assert_eq!(layout.inst_block(6), None);
    assert_eq!(layout.block_order(), vec![10, 20, 30]);
}

#[test]
fn clear_empties_the_layout_for_reuse() {
    let mut layout = Layout::new();
    layout.append_block(1);
    layout.append_inst(5, 1);
    layout.clear();
    assert!(!layout.is_block_inserted(1));
    assert_eq!(layout.inst_block(5), None);
    assert_eq!(layout.block_order(), Vec::<u32>::new());
    layout.append_block(2);
    layout.append_block(1);
    layout.append_inst(5, 2);
    assert_eq!(layout.block_order(), vec![2, 1]);
    assert_eq!(layout.inst_block(5), Some(2));
}

#[test]
fn block_capacity_can_be_asked() {
    let mut layout = Layout::new();
    layout.append_block(1);
    layout.append_block(2);
    assert!(layout.block_capacity() >= 2);
}
