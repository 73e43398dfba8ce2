use mini_lsm::iterator::merge_iterator::MergeIterator;
use mini_lsm::iterator::StorageIterator;
use mini_lsm::mem_table::{Bound, MemTable, MemTableIterator};

fn drain<I: StorageIterator>(mut it: I) -> Vec<(Vec<u8>, Vec<u8>)> {
    let mut out = Vec::new();
    while it.is_valid() {
        out.push((it.key().to_vec(), it.value().to_vec()));
        it.next().expect("memtable iterators do not fail");
    }
    out
}

#[test]
fn last_write_wins() {
    let mut m = MemTable::create(0);
    m.put(b"k", b"v1").unwrap();
    assert_eq!(m.get(b"k").unwrap(), b"v1".to_vec());
    m.put(b"k", b"v2").unwrap();
    assert_eq!(m.get(b"k").unwrap(), b"v2".to_vec());
    // a delete is a put of the tombstone: the lookup sees the empty value
    m.put(b"k", b"").unwrap();
    assert_eq!(m.get(b"k").unwrap(), b"".to_vec());
    m.put(b"k", b"v3").unwrap();
    assert_eq!(m.get(b"k").unwrap(), b"v3".to_vec());
    assert!(m.get(b"absent").is_none());
}

#[test]
fn scan_is_sorted_and_bounded() {
    let mut m = MemTable::create(0);
    for (k, v) in [(b"d", b"4"), (b"a", b"1"), (b"c", b"3"), (b"b", b"2")] {
        m.put(k, v).unwrap();
    }
    let all = drain(m.scan(&Bound::Unbounded, &Bound::Unbounded));
    assert_eq!(
        all,
        vec![
            (b"a".to_vec(), b"1".to_vec()),
            (b"b".to_vec(), b"2".to_vec()),
            (b"c".to_vec(), b"3".to_vec()),
            (b"d".to_vec(), b"4".to_vec()),
        ]
    );
    let mid = drain(m.scan(
        &Bound::Included(b"b".to_vec()),
        &Bound::Excluded(b"d".to_vec()),
    ));
    assert_eq!(
        mid,
        vec![(b"b".to_vec(), b"2".to_vec()), (b"c".to_vec(), b"3".to_vec())]
    );
    let tail = drain(m.scan(&Bound::Excluded(b"b".to_vec()), &Bound::Unbounded));
    assert_eq!(
        tail,
        vec![(b"c".to_vec(), b"3".to_vec()), (b"d".to_vec(), b"4".to_vec())]
    );
}

#[test]
fn approximate_size_counts_every_write() {
    let mut m = MemTable::create(0);
    m.put(b"key", b"value").unwrap();
    assert_eq!(m.approximate_size(), 8);
    // overwrites still grow the counter: it is conservative, not net
    m.put(b"key", b"value").unwrap();
    assert_eq!(m.approximate_size(), 16);
}

#[test]
fn merge_prefers_most_recent_source() {
    // three sorted sources; index 0 is the most recent
    let mut m0 = MemTable::create(0);
    m0.put(b"a", b"a0").unwrap();
    m0.put(b"c", b"c0").unwrap();
    let mut m1 = MemTable::create(1);
    m1.put(b"a", b"a1").unwrap();
    m1.put(b"b", b"b1").unwrap();
    let mut m2 = MemTable::create(2);
    m2.put(b"b", b"b2").unwrap();
    m2.put(b"c", b"c2").unwrap();
    m2.put(b"d", b"d2").unwrap();
    let sources: Vec<Box<MemTableIterator>> = vec![
        Box::new(m0.scan(&Bound::Unbounded, &Bound::Unbounded)),
        Box::new(m1.scan(&Bound::Unbounded, &Bound::Unbounded)),
        Box::new(m2.scan(&Bound::Unbounded, &Bound::Unbounded)),
    ];
    let merged = drain(MergeIterator::create(sources));
    assert_eq!(
        merged,
        vec![
            (b"a".to_vec(), b"a0".to_vec()),
            (b"b".to_vec(), b"b1".to_vec()),
            (b"c".to_vec(), b"c0".to_vec()),
            (b"d".to_vec(), b"d2".to_vec()),
        ]
    );
    // strictly increasing keys
    for w in merged.windows(2) {
        assert!(w[0].0 < w[1].0);
    }
}

#[test]
fn merge_of_exhausted_sources_is_invalid() {
    let m0 = MemTable::create(0);
    let sources: Vec<Box<MemTableIterator>> = vec![Box::new(
        m0.scan(&Bound::Unbounded, &Bound::Unbounded),
    )];
    let it = MergeIterator::create(sources);
    assert!(!it.is_valid());
    let empty: Vec<Box<MemTableIterator>> = Vec::new();
    let it = MergeIterator::create(empty);
    assert!(!it.is_valid());
}
