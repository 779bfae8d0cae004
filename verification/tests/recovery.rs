use rust_practice::ext2::{BlockGroupDescriptor, Ext2FS, ScanStep, Superblock, EXT2_SUPER_MAGIC};
use rust_practice::recovery::{all_zero, pattern_position, Recovery, JFIF_EOI, JFIF_HEADER};

fn put32(b: &mut [u8], at: usize, v: u32) {
    b[at..at + 4].copy_from_slice(&v.to_le_bytes());
}

/// The superblock bytes of a filesystem with the given geometry.
fn superblock_bytes(blocks: u32, first_data: u32, log_block_size: u32, per_group: u32) -> Vec<u8> {
    let mut b = vec![0u8; 84];
    put32(&mut b, 4, blocks);
    put32(&mut b, 20, first_data);
    put32(&mut b, 24, log_block_size);
    put32(&mut b, 32, per_group);
    b[56..58].copy_from_slice(&EXT2_SUPER_MAGIC.to_le_bytes());
    b
}

fn descriptor(bitmap_block: u32) -> BlockGroupDescriptor {
    let mut b = vec![0u8; 32];
    put32(&mut b, 0, bitmap_block);
    BlockGroupDescriptor::from_bytes(&b)
}

fn small_fs() -> Ext2FS {
    let sb = Superblock::from_bytes(&superblock_bytes(16, 1, 0, 8));
    Ext2FS::try_from_parts(sb, vec![descriptor(3), descriptor(4)]).ok().unwrap()
}

#[test]
fn superblock_fields_are_little_endian() {
    let sb = Superblock::from_bytes(&superblock_bytes(8193, 1, 2, 8192));
    assert!(sb.is_ext2());
    assert_eq!(sb.block_count(), 8193);
    assert_eq!(sb.first_data_block(), 1);
    assert_eq!(sb.block_size(), 4096);
    assert_eq!(sb.blocks_per_group(), 8192);
    assert_eq!(sb.block_group_count(), 2);
    assert_eq!(sb.bitmap_size(), 1024);
    // with 4096-byte blocks the table starts in block 1
    assert_eq!(sb.descriptor_offset(0), 2 * 4096);
    assert_eq!(sb.descriptor_offset(1), 2 * 4096 + 32);
    let small = Superblock::from_bytes(&superblock_bytes(16, 1, 0, 8));
    assert_eq!(small.descriptor_offset(0), 2048);
    let big = Superblock::from_bytes(&superblock_bytes(16, 0, 2, 8));
    assert_eq!(big.descriptor_offset(3), 4096 + 96);
}

#[test]
fn only_ext2_is_supported() {
    let mut bytes = superblock_bytes(16, 1, 0, 8);
    bytes[56] = 0;
    let sb = Superblock::from_bytes(&bytes);
    assert!(!sb.is_ext2());
    assert!(Ext2FS::try_from_parts(sb, vec![descriptor(3), descriptor(4)]).is_err());
}

#[test]
fn filesystem_has_a_descriptor_per_group() {
    let fs = small_fs();
    assert_eq!(fs.block_group_descriptor_tables.len(), 2);
    assert_eq!(fs.bitmap_block(0), 3);
    // each group has its own descriptor
    assert_eq!(fs.bitmap_block(1), 4);
    assert_eq!(fs.block_offset(5), 5 * 1024);
    let mut bitmap = vec![0xAA; 1024];
    fs.trim_bitmap(&mut bitmap);
    assert_eq!(bitmap, vec![0xAA]);
}

#[test]
fn indirect_positions_follow_the_block_map() {
    let fs = small_fs();
    // 1024-byte blocks hold 256 addresses
    assert!(!fs.block_is_indirect(0));
    assert!(!fs.block_is_indirect(11));
    assert!(fs.block_is_indirect(12));
    assert!(!fs.block_is_indirect(13));
    assert!(!fs.block_is_indirect(268));
    assert!(fs.block_is_indirect(269));
    assert!(fs.block_is_indirect(270));
    assert!(!fs.block_is_indirect(271));
    assert!(fs.block_is_indirect(270 + 257));
    assert!(fs.block_is_indirect(269 + 1 + 257 * 256));
}

#[test]
fn free_blocks_are_walked_group_by_group() {
    let fs = small_fs();
    // group 0: blocks 0 and 1 in use
    let mut iter = fs.block_iter(vec![0b0000_0011, 0xFF]);
    assert!(matches!(iter.next(&fs), ScanStep::Found(3)));
    assert!(matches!(iter.next(&fs), ScanStep::Found(4)));
    for b in 5..=8 {
        assert!(matches!(iter.next(&fs), ScanStep::Found(x) if x == b));
    }
    assert!(matches!(iter.next(&fs), ScanStep::NeedBitmap(1)));
    // group 1: only its first block is free
    assert!(matches!(iter.resume(&fs, 1, vec![0xFE]), ScanStep::Found(9)));
    assert!(matches!(iter.next(&fs), ScanStep::Exhausted));
}

#[test]
fn walk_reports_free_blocks_in_increasing_order() {
    let fs = small_fs();
    let bitmaps = [vec![0b1010_0101], vec![0b0101_1010]];
    let mut iter = fs.block_iter(bitmaps[0].clone());
    let mut found = Vec::new();
    let mut step = iter.next(&fs);
    loop {
        match step {
            ScanStep::Found(b) => {
                found.push(b);
                step = iter.next(&fs);
            }
            ScanStep::NeedBitmap(g) => step = iter.resume(&fs, g, bitmaps[g].clone()),
            ScanStep::Exhausted => break,
        }
    }
    assert_eq!(found, vec![2, 4, 5, 7, 9, 11, 14]);
    assert!(found.windows(2).all(|w| w[0] < w[1]));
}

#[test]
fn walk_stops_at_the_block_count() {
    let fs = small_fs();
    let mut iter = fs.block_iter(vec![0xFF]);
    assert!(matches!(iter.next(&fs), ScanStep::NeedBitmap(1)));
    // every block of group 1 free; block ids past the count end the walk
    assert!(matches!(iter.resume(&fs, 1, vec![0x00]), ScanStep::Found(9)));
    for b in 10..=15 {
        assert!(matches!(iter.next(&fs), ScanStep::Found(x) if x == b));
    }
    assert!(matches!(iter.next(&fs), ScanStep::Exhausted));
}

#[test]
fn pattern_position_counts_from_the_offset() {
    assert_eq!(pattern_position(&[1, 2, 3, 1, 2], &[1, 2], 0), Some(0));
    assert_eq!(pattern_position(&[1, 2, 3, 1, 2], &[1, 2], 1), Some(2));
    assert_eq!(pattern_position(&[1, 2, 3], &[4], 0), None);
    assert_eq!(pattern_position(&[1], &[1, 2], 0), None);
    assert_eq!(pattern_position(&[1, 2, 3], &[1, 2], 5), None);
    assert!(all_zero(&[0, 0, 0]));
    assert!(!all_zero(&[0, 1]));
}

#[test]
fn images_are_recovered_from_free_blocks() {
    let fs = small_fs();
    let mut rec = Recovery::new();
    // an empty block and one without a header are passed over
    rec.feed(&fs, &[0u8; 32]);
    rec.feed(&fs, &[7u8; 32]);

    // an image within one block runs from the header through the end marker
    let mut block = vec![9u8; 4];
    block.extend_from_slice(&JFIF_HEADER);
    block.extend_from_slice(&[1, 2, 3]);
    block.extend_from_slice(&JFIF_EOI);
    block.extend_from_slice(&[5, 5]);
    rec.feed(&fs, &block);

    // an image over two blocks
    let mut first = JFIF_HEADER.to_vec();
    first.extend_from_slice(&[4, 4]);
    rec.feed(&fs, &first);
    let mut second = vec![6u8, 6, 6];
    second.extend_from_slice(&JFIF_EOI);
    second.push(8);
    rec.feed(&fs, &second);

    let imgs = rec.into_images();
    assert_eq!(imgs.len(), 2);
    assert_eq!(imgs[0], block[4..20].to_vec());
    assert!(imgs[0].ends_with(&JFIF_EOI));
    let mut expected = first.clone();
    expected.extend_from_slice(&[6, 6, 6, 0xFF, 0xD9]);
    assert_eq!(imgs[1], expected);
}

#[test]
fn indirect_blocks_are_passed_over() {
    let fs = small_fs();
    let mut rec = Recovery::new();
    rec.feed(&fs, &JFIF_HEADER);
    for _ in 0..11 {
        rec.feed(&fs, &[1u8]);
    }
    // the twelfth block after the first holds addresses: it is skipped
    rec.feed(&fs, &[2u8]);
    let mut last = vec![3u8];
    last.extend_from_slice(&JFIF_EOI);
    rec.feed(&fs, &last);
    let imgs = rec.into_images();
    let mut expected = JFIF_HEADER.to_vec();
    expected.extend_from_slice(&[1u8; 11]);
    expected.extend_from_slice(&[3, 0xFF, 0xD9]);
    assert_eq!(imgs, vec![expected]);
}

#[test]
fn unfinished_image_is_dropped() {
    let fs = small_fs();
    let mut rec = Recovery::new();
    rec.feed(&fs, &JFIF_HEADER);
    assert!(rec.into_images().is_empty());
}

#[test]
fn recovery_reports_a_collected_image() {
    let fs = small_fs();
    assert_eq!(fs.superblock.log_of_block_size(), 0);
    let mut rec = Recovery::new();
    assert!(!rec.is_collecting());
    rec.feed(&fs, &JFIF_HEADER);
    assert!(rec.is_collecting());
    rec.feed(&fs, &[1, 2]);
    assert_eq!(rec.blocks_after_first(), 1);
}
