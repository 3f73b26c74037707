use std::sync::Arc;

use mini_lsm::block::Block;
use mini_lsm::block_builder::BlockBuilder;
use mini_lsm::block_iterator::BlockIterator;

fn build_block(target: usize, pairs: &[(&[u8], &[u8])]) -> Block {
    let mut builder = BlockBuilder::new(target);
    for (k, v) in pairs {
        assert!(builder.add(k, v));
    }
    builder.build()
}

#[test]
fn single_entry_block_encode_length() {
    let mut builder = BlockBuilder::new(64);
    assert!(builder.is_empty());
    assert!(builder.add(b"a", b"1"));
    assert!(!builder.is_empty());
    assert_eq!(builder.size(), 10);
    let block = builder.build();
    let encoded = block.encode();
    assert_eq!(encoded.len(), 10);
    // entry: key_len=1, 'a', val_len=1, '1'; one offset 0; count 1
    assert_eq!(encoded, vec![0, 1, b'a', 0, 1, b'1', 0, 0, 0, 1]);
}

#[test]
fn single_entry_block_decode_and_seek() {
    let block = build_block(64, &[(b"a", b"1")]);
    let encoded = block.encode();
    let decoded = Block::decode(&encoded).unwrap();
    assert_eq!(decoded.data, block.data);
    assert_eq!(decoded.offsets, block.offsets);
    let iter = BlockIterator::create_and_seek_to_first(Arc::new(decoded));
    assert!(iter.is_valid());
    assert_eq!(iter.key(), b"a");
    assert_eq!(iter.value(), b"1");
}

#[test]
fn fill_exactly_three_entries() {
    // each entry costs 8 data bytes plus a 2-byte offset slot; with the
    // 2-byte count, three entries come to exactly 32 bytes
    let mut builder = BlockBuilder::new(32);
    assert!(builder.add(b"k1", b"v1"));
    assert!(builder.add(b"k2", b"v2"));
    assert!(builder.add(b"k3", b"v3"));
    assert_eq!(builder.size(), 32);
    assert!(!builder.add(b"k4", b"v4"));
    let block = builder.build();
    assert_eq!(block.offsets.len(), 3);
    assert_eq!(block.encode().len(), 32);
}

#[test]
fn rejected_add_changes_nothing() {
    let mut builder = BlockBuilder::new(32);
    assert!(builder.add(b"k1", b"v1"));
    assert!(builder.add(b"k2", b"v2"));
    assert!(builder.add(b"k3", b"v3"));
    let size_before = builder.size();
    let empty_before = builder.is_empty();
    assert!(!builder.add(b"k4", b"v4"));
    assert_eq!(builder.size(), size_before);
    assert_eq!(builder.is_empty(), empty_before);
    // the block built afterwards holds only the three accepted entries
    let block = builder.build();
    assert_eq!(block.offsets.len(), 3);
}

#[test]
fn block_binary_search() {
    let block = Arc::new(build_block(
        256,
        &[(b"aa", b"1"), (b"cc", b"2"), (b"ee", b"3"), (b"gg", b"4")],
    ));
    let iter = BlockIterator::create_and_seek_to_key(Arc::clone(&block), b"bb");
    assert!(iter.is_valid());
    assert_eq!(iter.key(), b"cc");
    let iter = BlockIterator::create_and_seek_to_key(Arc::clone(&block), b"ee");
    assert!(iter.is_valid());
    assert_eq!(iter.key(), b"ee");
    assert_eq!(iter.value(), b"3");
    let iter = BlockIterator::create_and_seek_to_key(Arc::clone(&block), b"zz");
    assert!(!iter.is_valid());
    let iter = BlockIterator::create_and_seek_to_key(Arc::clone(&block), b"a");
    assert!(iter.is_valid());
    assert_eq!(iter.key(), b"aa");
}

#[test]
fn block_iteration_in_order() {
    let block = Arc::new(build_block(
        256,
        &[(b"aa", b"1"), (b"cc", b"2"), (b"ee", b"3")],
    ));
    let mut iter = BlockIterator::create_and_seek_to_first(Arc::clone(&block));
    let mut seen: Vec<(Vec<u8>, Vec<u8>)> = Vec::new();
    while iter.is_valid() {
        seen.push((iter.key().to_vec(), iter.value().to_vec()));
        iter.next();
    }
    assert_eq!(
        seen,
        vec![
            (b"aa".to_vec(), b"1".to_vec()),
            (b"cc".to_vec(), b"2".to_vec()),
            (b"ee".to_vec(), b"3".to_vec()),
        ]
    );
}

#[test]
fn seek_then_rewind_with_seek_to_first() {
    let block = Arc::new(build_block(256, &[(b"aa", b"1"), (b"cc", b"2")]));
    let mut iter = BlockIterator::create_and_seek_to_key(Arc::clone(&block), b"cc");
    assert_eq!(iter.key(), b"cc");
    iter.seek_to_first();
    assert_eq!(iter.key(), b"aa");
    iter.seek_to_key(b"bb");
    assert_eq!(iter.key(), b"cc");
}

#[test]
fn decode_rejects_short_buffer() {
    assert!(matches!(Block::decode(&[]), Err(mini_lsm::Error::CorruptBlock)));
    assert!(matches!(Block::decode(&[7]), Err(mini_lsm::Error::CorruptBlock)));
}

#[test]
fn decode_rejects_overlong_count() {
    // claims five entries but holds no bytes for them
    assert!(matches!(Block::decode(&[0, 5]), Err(mini_lsm::Error::CorruptBlock)));
}

#[test]
fn decode_rejects_bad_offsets() {
    // one entry whose stored offset is 9, outside the data region
    let bytes = vec![0, 1, b'a', 0, 1, b'1', 0, 9, 0, 1];
    assert!(matches!(Block::decode(&bytes), Err(mini_lsm::Error::CorruptBlock)));
}

#[test]
fn decode_rejects_entry_overrun() {
    // key length claims three bytes but the region holds fewer
    let bytes = vec![0, 3, b'a', 0, 1, b'1', 0, 0, 0, 1];
    assert!(matches!(Block::decode(&bytes), Err(mini_lsm::Error::CorruptBlock)));
}

#[test]
fn decode_accepts_empty_block_image() {
    let decoded = Block::decode(&[0, 0]).unwrap();
    assert_eq!(decoded.offsets.len(), 0);
    assert_eq!(decoded.data.len(), 0);
}

#[test]
fn round_trip_many_entries() {
    let pairs: Vec<(Vec<u8>, Vec<u8>)> = (0..50)
        .map(|i| (format!("key{:03}", i).into_bytes(), format!("value{:03}", i).into_bytes()))
        .collect();
    let mut builder = BlockBuilder::new(4096);
    for (k, v) in &pairs {
        assert!(builder.add(k, v));
    }
    let block = builder.build();
    let encoded = block.encode();
    let decoded = Block::decode(&encoded).unwrap();
    assert_eq!(decoded.data, block.data);
    assert_eq!(decoded.offsets, block.offsets);
    assert_eq!(decoded.encode(), encoded);
}

#[test]
fn empty_value_is_allowed() {
    let block = Arc::new(build_block(64, &[(b"k", b"")]));
    let iter = BlockIterator::create_and_seek_to_first(Arc::clone(&block));
    assert!(iter.is_valid());
    assert_eq!(iter.key(), b"k");
    assert_eq!(iter.value(), b"");
}
