use mini_lsm::block::iterator::BlockIterator;
use mini_lsm::block::{Block, BlockBuilder};
use mini_lsm::Error;
use std::sync::Arc;

fn sample_block() -> Block {
    let mut b = BlockBuilder::new(4096);
    assert!(b.add(b"apple", b"1"));
    assert!(b.add(b"banana", b"22"));
    assert!(b.add(b"cherry", b"333"));
    assert!(b.add(b"damson", b""));
    b.build()
}

#[test]
fn block_round_trip() {
    let block = sample_block();
    let encoded = block.encode();
    let decoded = Block::decode(&encoded).expect("decode of an encoded block");
    assert_eq!(decoded.data, block.data);
    assert_eq!(decoded.offsets, block.offsets);
    // the re-encoded bytes are identical as well
    assert_eq!(decoded.encode(), encoded);
}

#[test]
fn decode_rejects_truncated() {
    assert_eq!(Block::decode(&[]).unwrap_err(), Error::Format);
    assert_eq!(Block::decode(&[7u8]).unwrap_err(), Error::Format);
    let encoded = sample_block().encode();
    let truncated = &encoded[..encoded.len() - 1];
    assert_eq!(Block::decode(truncated).unwrap_err(), Error::Format);
}

#[test]
fn decode_rejects_unsorted() {
    // two entries with keys out of order: "b" then "a"
    let mut bad: Vec<u8> = Vec::new();
    for (k, v) in [(b"b", b"x"), (b"a", b"y")] {
        bad.extend_from_slice(&[0, 1]);
        bad.extend_from_slice(k);
        bad.extend_from_slice(&[0, 1]);
        bad.extend_from_slice(v);
    }
    bad.extend_from_slice(&[0, 0]); // offset of entry 0
    bad.extend_from_slice(&[0, 6]); // offset of entry 1
    bad.extend_from_slice(&[0, 2]); // entry count
    assert_eq!(Block::decode(&bad).unwrap_err(), Error::Format);
}

#[test]
fn builder_respects_budget() {
    // each entry is 1-byte key + 1-byte value: 6 data bytes + 2 offset
    // bytes; an encoded block of two entries is 18 bytes
    let mut b = BlockBuilder::new(18);
    assert!(b.add(b"a", b"1"));
    assert!(b.add(b"b", b"2"));
    assert!(!b.add(b"c", b"3"));
    let block = b.build();
    assert_eq!(block.offsets.len(), 2);
}

#[test]
fn builder_accepts_oversized_first_entry() {
    let mut b = BlockBuilder::new(4);
    let big = vec![7u8; 100];
    assert!(b.add(b"k", &big));
    assert!(!b.add(b"l", b"x"));
}

#[test]
fn iterator_walks_in_order() {
    let block = Arc::new(sample_block());
    let mut it = BlockIterator::create_and_seek_to_first(Arc::clone(&block));
    let mut seen: Vec<(Vec<u8>, Vec<u8>)> = Vec::new();
    while it.is_valid() {
        seen.push((it.key().to_vec(), it.value().to_vec()));
        it.next();
    }
    assert_eq!(
        seen,
        vec![
            (b"apple".to_vec(), b"1".to_vec()),
            (b"banana".to_vec(), b"22".to_vec()),
            (b"cherry".to_vec(), b"333".to_vec()),
            (b"damson".to_vec(), b"".to_vec()),
        ]
    );
}

#[test]
fn seek_to_key_lands_on_lower_bound() {
    let block = Arc::new(sample_block());
    // exact hit
    let it = BlockIterator::create_and_seek_to_key(Arc::clone(&block), b"banana");
    assert!(it.is_valid());
    assert_eq!(it.key(), b"banana");
    // between keys: lands on the next stored key
    let it = BlockIterator::create_and_seek_to_key(Arc::clone(&block), b"b");
    assert!(it.is_valid());
    assert_eq!(it.key(), b"banana");
    // before all keys
    let it = BlockIterator::create_and_seek_to_key(Arc::clone(&block), b"");
    assert!(it.is_valid());
    assert_eq!(it.key(), b"apple");
    // past all keys: invalid
    let it = BlockIterator::create_and_seek_to_key(Arc::clone(&block), b"zebra");
    assert!(!it.is_valid());
}

#[test]
fn binary_search_agrees_with_linear_scan() {
    let block = Arc::new(sample_block());
    let probes: Vec<&[u8]> = vec![
        b"", b"a", b"apple", b"apples", b"banana", b"car", b"cherry", b"damson", b"e", b"zzz",
    ];
    // collect the stored keys by a linear walk
    let mut stored: Vec<Vec<u8>> = Vec::new();
    let mut it = BlockIterator::create_and_seek_to_first(Arc::clone(&block));
    while it.is_valid() {
        stored.push(it.key().to_vec());
        it.next();
    }
    for probe in probes {
        let expected = stored.iter().find(|k| k.as_slice() >= probe);
        let it = BlockIterator::create_and_seek_to_key(Arc::clone(&block), probe);
        match expected {
            Some(k) => {
                assert!(it.is_valid());
                assert_eq!(it.key(), k.as_slice());
            }
            None => assert!(!it.is_valid()),
        }
    }
}
