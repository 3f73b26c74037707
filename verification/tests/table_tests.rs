use std::sync::Arc;

use mini_lsm::table::{BlockMeta, FileObject, SsTable, BLOCK_SLOT_SIZE};
use mini_lsm::table_builder::SsTableBuilder;
use mini_lsm::table_iterator::SsTableIterator;
use mini_lsm::Error;

fn key_of(i: usize) -> Vec<u8> {
    format!("key{:05}", i).into_bytes()
}

fn val_of(i: usize) -> Vec<u8> {
    format!("val{:05}", i).into_bytes()
}

fn build_table(n: usize, block_size: usize) -> SsTable {
    let mut builder = SsTableBuilder::new(block_size);
    for i in 0..n {
        builder.add(&key_of(i), &val_of(i)).unwrap();
    }
    builder.build()
}

// Each "keyNNNNN"/"valNNNNN" pair costs 16 payload bytes, 4 length bytes and
// a 2-byte offset slot; with block_size 1024 a block takes 46 entries.
const ENTRIES_PER_KILOBLOCK: usize = 46;

#[test]
fn sst_round_trip_full_scan() {
    let n = 10_000;
    let table = build_table(n, 1024);
    let expected_blocks = (n + ENTRIES_PER_KILOBLOCK - 1) / ENTRIES_PER_KILOBLOCK;
    assert_eq!(table.num_of_blocks(), expected_blocks);
    let mut iter = SsTableIterator::create_and_seek_to_first(Arc::new(table)).unwrap();
    let mut i = 0;
    while iter.is_valid() {
        assert_eq!(iter.key(), key_of(i).as_slice());
        assert_eq!(iter.value(), val_of(i).as_slice());
        iter.next().unwrap();
        i += 1;
    }
    assert_eq!(i, n);
}

#[test]
fn sst_open_round_trip() {
    let table = build_table(500, 1024);
    let image = table.file;
    let reopened = SsTable::open(image).unwrap();
    assert_eq!(reopened.num_of_blocks(), table.block_metas.len());
    let mut iter = SsTableIterator::create_and_seek_to_first(Arc::new(reopened)).unwrap();
    let mut i = 0;
    while iter.is_valid() {
        assert_eq!(iter.key(), key_of(i).as_slice());
        iter.next().unwrap();
        i += 1;
    }
    assert_eq!(i, 500);
}

#[test]
fn sst_seek_exact_and_between() {
    let table = Arc::new(build_table(200, 1024));
    let mut iter = SsTableIterator::create_and_seek_to_key(Arc::clone(&table), &key_of(123))
        .unwrap();
    assert!(iter.is_valid());
    assert_eq!(iter.key(), key_of(123).as_slice());
    assert_eq!(iter.value(), val_of(123).as_slice());
    // a key lexically between key00123 and key00124
    iter.seek_to_key(b"key00123a").unwrap();
    assert!(iter.is_valid());
    assert_eq!(iter.key(), key_of(124).as_slice());
    iter.seek_to_key(b"aaa").unwrap();
    assert_eq!(iter.key(), key_of(0).as_slice());
    iter.seek_to_key(b"zzz").unwrap();
    assert!(!iter.is_valid());
}

#[test]
fn sst_seek_across_block_boundary() {
    let table = Arc::new(build_table(200, 1024));
    // last key of block 0 and first key of block 1
    let last_of_first_block = key_of(ENTRIES_PER_KILOBLOCK - 1);
    let first_of_second_block = key_of(ENTRIES_PER_KILOBLOCK);
    // a key lexically between the two
    let mut between = last_of_first_block.clone();
    between.push(b'a');
    let mut iter =
        SsTableIterator::create_and_seek_to_key(Arc::clone(&table), &between).unwrap();
    assert!(iter.is_valid());
    assert_eq!(iter.key(), first_of_second_block.as_slice());
    // seeking the last key of block 0 exactly stays in block 0
    iter.seek_to_key(&last_of_first_block).unwrap();
    assert_eq!(iter.key(), last_of_first_block.as_slice());
}

#[test]
fn sst_cross_block_next_and_exhaustion() {
    let table = Arc::new(build_table(100, 1024));
    let last_of_first_block = key_of(ENTRIES_PER_KILOBLOCK - 1);
    let mut iter =
        SsTableIterator::create_and_seek_to_key(Arc::clone(&table), &last_of_first_block)
            .unwrap();
    assert_eq!(iter.key(), last_of_first_block.as_slice());
    iter.next().unwrap();
    assert!(iter.is_valid());
    assert_eq!(iter.key(), key_of(ENTRIES_PER_KILOBLOCK).as_slice());
    // run to the end; stepping past the last entry leaves the iterator
    // invalid and a further next() is a no-op
    iter.seek_to_key(&key_of(99)).unwrap();
    assert_eq!(iter.key(), key_of(99).as_slice());
    iter.next().unwrap();
    assert!(!iter.is_valid());
    iter.next().unwrap();
    assert!(!iter.is_valid());
}

#[test]
fn find_block_idx_picks_unique_candidate() {
    let table = build_table(200, 1024);
    assert_eq!(table.find_block_idx(b"aaa"), 0);
    assert_eq!(table.find_block_idx(&key_of(0)), 0);
    assert_eq!(table.find_block_idx(&key_of(ENTRIES_PER_KILOBLOCK - 1)), 0);
    assert_eq!(table.find_block_idx(&key_of(ENTRIES_PER_KILOBLOCK)), 1);
    assert_eq!(table.find_block_idx(b"zzz"), table.num_of_blocks() - 1);
}

#[test]
fn read_block_matches_meta() {
    let table = build_table(200, 1024);
    for i in 0..table.num_of_blocks() {
        let block = table.read_block(i).unwrap();
        assert!(block.offsets.len() > 0);
    }
    // every block slot starts at a multiple of the slot size and ends at the
    // recorded offset
    for (i, meta) in table.block_metas.iter().enumerate() {
        let start = (i * BLOCK_SLOT_SIZE) as u32;
        assert!(meta.offset > start);
        assert!(meta.offset <= start + BLOCK_SLOT_SIZE as u32);
    }
}

#[test]
fn oversized_entry_is_rejected_unchanged() {
    let mut builder = SsTableBuilder::new(64);
    builder.add(b"aa", b"bb").unwrap();
    let big_value = vec![b'x'; 100];
    let r = builder.add(b"zz", &big_value);
    assert!(matches!(r, Err(Error::OversizedEntry)));
    let table = builder.build();
    assert_eq!(table.num_of_blocks(), 1);
}

#[test]
fn estimated_size_counts_slots() {
    let mut builder = SsTableBuilder::new(1024);
    assert_eq!(builder.estimated_size(), 0);
    builder.add(b"a", b"1").unwrap();
    assert_eq!(builder.estimated_size(), BLOCK_SLOT_SIZE);
    for i in 0..ENTRIES_PER_KILOBLOCK + 1 {
        builder.add(&key_of(i), &val_of(i)).unwrap();
    }
    assert_eq!(builder.estimated_size(), 2 * BLOCK_SLOT_SIZE);
}

#[test]
fn add_rolls_exactly_when_block_is_full() {
    // budget 16: one 10-byte entry plus its offset slot and the count fill a
    // block, so every second add finalizes a block
    let mut builder = SsTableBuilder::new(16);
    builder.add(b"a", b"1").unwrap();
    assert_eq!(builder.data_blocks.len(), 0);
    assert_eq!(builder.cur_start, 0);
    builder.add(b"b", b"2").unwrap();
    assert_eq!(builder.data_blocks.len(), 1);
    assert_eq!(builder.meta.len(), 1);
    assert_eq!(builder.meta[0].offset, 10);
    assert_eq!(builder.meta[0].first_key, b"a".to_vec());
    assert_eq!(builder.cur_start, BLOCK_SLOT_SIZE as u32);
    builder.add(b"c", b"3").unwrap();
    assert_eq!(builder.data_blocks.len(), 2);
    assert_eq!(builder.meta[1].offset, BLOCK_SLOT_SIZE as u32 + 10);
    assert_eq!(builder.meta[1].first_key, b"b".to_vec());
    assert_eq!(builder.cur_start, 2 * BLOCK_SLOT_SIZE as u32);
    let table = builder.build();
    assert_eq!(table.num_of_blocks(), 3);
}

#[test]
fn meta_codec_round_trip() {
    let metas = vec![
        BlockMeta { offset: 2500, key_len: 2, first_key: b"aa".to_vec() },
        BlockMeta { offset: 6696, key_len: 3, first_key: b"bcd".to_vec() },
    ];
    let mut buf: Vec<u8> = Vec::new();
    BlockMeta::encode_block_meta(&metas, &mut buf);
    assert_eq!(buf.len(), 6 + 2 + 6 + 3);
    let decoded = BlockMeta::decode_block_meta(&buf).unwrap();
    assert_eq!(decoded.len(), 2);
    assert_eq!(decoded[0].offset, 2500);
    assert_eq!(decoded[0].first_key, b"aa".to_vec());
    assert_eq!(decoded[1].offset, 6696);
    assert_eq!(decoded[1].key_len, 3);
    assert_eq!(decoded[1].first_key, b"bcd".to_vec());
}

#[test]
fn meta_codec_rejects_truncation() {
    let metas = vec![BlockMeta { offset: 10, key_len: 4, first_key: b"abcd".to_vec() }];
    let mut buf: Vec<u8> = Vec::new();
    BlockMeta::encode_block_meta(&metas, &mut buf);
    buf.pop();
    assert!(matches!(
        BlockMeta::decode_block_meta(&buf),
        Err(Error::CorruptTable)
    ));
    assert!(matches!(
        BlockMeta::decode_block_meta(&[1, 2, 3]),
        Err(Error::CorruptTable)
    ));
}

#[test]
fn file_object_read_bounds() {
    let file = FileObject::create(vec![1, 2, 3, 4, 5]);
    assert_eq!(file.size(), 5);
    assert_eq!(file.read(1, 3).unwrap(), vec![2, 3, 4]);
    assert_eq!(file.read(5, 0).unwrap(), Vec::<u8>::new());
    assert!(matches!(file.read(3, 3), Err(Error::IoError)));
    assert!(matches!(file.read(6, 0), Err(Error::IoError)));
}

#[test]
fn open_rejects_malformed_images() {
    // too short for a footer
    assert!(matches!(
        SsTable::open(FileObject::create(vec![1, 2, 3])),
        Err(Error::CorruptTable)
    ));
    // footer points past the end
    assert!(matches!(
        SsTable::open(FileObject::create(vec![0xFF, 0xFF, 0xFF, 0xFF])),
        Err(Error::CorruptTable)
    ));
    // empty meta region: zero blocks
    assert!(matches!(
        SsTable::open(FileObject::create(vec![0, 0, 0, 0])),
        Err(Error::CorruptTable)
    ));
    // a valid table with its footer corrupted no longer opens
    let table = build_table(10, 256);
    let mut bytes = table.file.0;
    let len = bytes.len();
    bytes[len - 1] = bytes[len - 1].wrapping_add(1);
    assert!(matches!(
        SsTable::open(FileObject::create(bytes)),
        Err(Error::CorruptTable)
    ));
}

#[test]
fn table_image_layout() {
    let table = build_table(10, 256);
    let bytes = &table.file.0;
    let n = table.num_of_blocks();
    // footer holds the meta offset, which sits right after the block slots
    let len = bytes.len();
    let footer = u32::from_be_bytes([bytes[len - 4], bytes[len - 3], bytes[len - 2], bytes[len
        - 1]]) as usize;
    assert_eq!(footer, n * BLOCK_SLOT_SIZE);
    assert_eq!(table.block_meta_offset as usize, footer);
    // padding after each block's encoded bytes is zero
    for (i, meta) in table.block_metas.iter().enumerate() {
        for j in meta.offset as usize..(i + 1) * BLOCK_SLOT_SIZE {
            assert_eq!(bytes[j], 0);
        }
    }
}
