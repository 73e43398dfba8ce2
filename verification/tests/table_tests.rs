use mini_lsm::lsm_storage::BlockCache;
use mini_lsm::table::builder::SsTableBuilder;
use mini_lsm::table::iterator::SsTableIterator;
use mini_lsm::table::{BlockMeta, SsTable};
use mini_lsm::Error;
use std::sync::Arc;

/// A budget that fits exactly two one-byte-key, one-byte-value entries per
/// block: two such entries encode to 18 bytes.
fn two_entry_builder() -> SsTableBuilder {
    SsTableBuilder::new(18)
}

#[test]
fn builder_splits_blocks_on_budget() {
    let mut b = two_entry_builder();
    b.add(b"a", &[1]);
    b.add(b"b", &[2]);
    b.add(b"c", &[3]);
    let t = b.build(7);
    assert_eq!(t.num_of_blocks(), 2);
    assert_eq!(t.id, 7);
    assert_eq!(t.first_key, b"a".to_vec());
    assert_eq!(t.last_key, b"c".to_vec());
    // block 0 holds {a, b}; block 1 holds {c}
    assert_eq!(t.block_meta[0].first_key, b"a".to_vec());
    assert_eq!(t.block_meta[0].last_key, b"b".to_vec());
    assert_eq!(t.block_meta[1].first_key, b"c".to_vec());
    assert_eq!(t.block_meta[1].last_key, b"c".to_vec());
    assert_eq!(t.find_block_idx(b"a"), 0);
    assert_eq!(t.find_block_idx(b"b"), 0);
    assert_eq!(t.find_block_idx(b"c"), 1);
}

#[test]
fn meta_round_trip() {
    let metas = vec![
        BlockMeta { offset: 0, first_key: b"a".to_vec(), last_key: b"b".to_vec() },
        BlockMeta { offset: 18, first_key: b"c".to_vec(), last_key: b"c".to_vec() },
    ];
    let mut buf = Vec::new();
    BlockMeta::encode_block_meta(&metas, &mut buf);
    let back = BlockMeta::decode_block_meta(&buf).unwrap();
    assert_eq!(back.len(), 2);
    assert_eq!(back[0].offset, 0);
    assert_eq!(back[0].first_key, b"a".to_vec());
    assert_eq!(back[1].offset, 18);
    assert_eq!(back[1].last_key, b"c".to_vec());
    // a truncated summary section is rejected
    assert_eq!(
        BlockMeta::decode_block_meta(&buf[..buf.len() - 1]).unwrap_err(),
        Error::Format
    );
}

#[test]
fn open_round_trip() {
    let mut b = two_entry_builder();
    b.add(b"a", &[1]);
    b.add(b"b", &[2]);
    b.add(b"c", &[3]);
    let t = b.build(1);
    let image = t.bytes.clone();
    let reopened = SsTable::open(image, 1).expect("a built image opens");
    assert_eq!(reopened.num_of_blocks(), 2);
    assert_eq!(reopened.first_key, b"a".to_vec());
    assert_eq!(reopened.last_key, b"c".to_vec());
    assert_eq!(reopened.find_block_idx(b"b"), 0);
}

#[test]
fn open_rejects_corrupt_images() {
    assert_eq!(SsTable::open(vec![], 1).unwrap_err(), Error::Format);
    assert_eq!(SsTable::open(vec![0, 0, 0, 9], 1).unwrap_err(), Error::Format);
    let mut b = two_entry_builder();
    b.add(b"a", &[1]);
    let t = b.build(1);
    let mut image = t.bytes.clone();
    image.pop();
    assert_eq!(SsTable::open(image, 1).unwrap_err(), Error::Format);
}

#[test]
fn read_block_goes_through_cache() {
    let mut b = two_entry_builder();
    b.add(b"a", &[1]);
    b.add(b"b", &[2]);
    b.add(b"c", &[3]);
    let t = b.build(1);
    let mut cache = BlockCache::new(64);
    let blk = t.read_block_cache(&mut cache, 1).unwrap();
    assert_eq!(blk.offsets.len(), 1);
    // a second read serves the same block, now from the cache
    let again = t.read_block_cache(&mut cache, 1).unwrap();
    assert_eq!(again.data, blk.data);
    let direct = t.read_block(0).unwrap();
    assert_eq!(direct.offsets.len(), 2);
}

#[test]
fn table_iterator_crosses_blocks() {
    let mut b = two_entry_builder();
    b.add(b"a", &[1]);
    b.add(b"b", &[2]);
    b.add(b"c", &[3]);
    let t = Arc::new(b.build(1));
    let mut cache = BlockCache::new(64);
    let mut it = SsTableIterator::create_and_seek_to_first(Arc::clone(&t), &mut cache).unwrap();
    let mut seen = Vec::new();
    while it.is_valid() {
        seen.push((it.key().to_vec(), it.value().to_vec()));
        it.next(&mut cache).unwrap();
    }
    assert_eq!(
        seen,
        vec![
            (b"a".to_vec(), vec![1]),
            (b"b".to_vec(), vec![2]),
            (b"c".to_vec(), vec![3]),
        ]
    );
}

#[test]
fn table_iterator_seeks_by_key() {
    let mut b = two_entry_builder();
    b.add(b"a", &[1]);
    b.add(b"b", &[2]);
    b.add(b"c", &[3]);
    let t = Arc::new(b.build(1));
    let mut cache = BlockCache::new(64);
    let (idx, bit) = SsTableIterator::create_block_iterator_and_seek_to_key(&t, &mut cache, b"b")
        .unwrap();
    assert_eq!(idx, 0);
    assert!(bit.is_valid());
    assert_eq!(bit.key(), b"b");
    let (idx, bit) = SsTableIterator::create_block_iterator_and_seek_to_key(&t, &mut cache, b"c")
        .unwrap();
    assert_eq!(idx, 1);
    assert!(bit.is_valid());
    assert_eq!(bit.key(), b"c");
    let it = SsTableIterator::create_and_seek_to_key(Arc::clone(&t), &mut cache, b"b").unwrap();
    assert!(it.is_valid());
    assert_eq!(it.block_idx, 0);
    assert_eq!(it.key(), b"b");
    // a key between the blocks runs over into the next block
    let it = SsTableIterator::create_and_seek_to_key(Arc::clone(&t), &mut cache, b"bb").unwrap();
    assert!(it.is_valid());
    assert_eq!(it.key(), b"c");
    // a key past the whole table leaves the cursor invalid
    let it = SsTableIterator::create_and_seek_to_key(Arc::clone(&t), &mut cache, b"z").unwrap();
    assert!(!it.is_valid());
}

#[test]
fn create_meta_only_carries_the_range() {
    let t = SsTable::create_meta_only(9, 1234, b"lo".to_vec(), b"hi".to_vec());
    assert_eq!(t.id, 9);
    assert_eq!(t.first_key, b"lo".to_vec());
    assert_eq!(t.last_key, b"hi".to_vec());
    assert_eq!(t.num_of_blocks(), 0);
}
