use mini_lsm::iterator::StorageIterator;
use mini_lsm::lsm_storage::{LsmStorageConfig, LsmStorageInner};
use mini_lsm::mem_table::Bound;
use mini_lsm::Error;

fn engine(target_sst_size: usize) -> LsmStorageInner {
    LsmStorageInner::create(LsmStorageConfig {
        block_size: 4096,
        target_sst_size,
        num_memtable_limit: 50,
        enable_wal: false,
        serializable: false,
    })
}

fn scan_all(e: &LsmStorageInner) -> Vec<(Vec<u8>, Vec<u8>)> {
    let mut it = e.scan(&Bound::Unbounded, &Bound::Unbounded).unwrap();
    let mut out = Vec::new();
    while it.is_valid() {
        out.push((it.key().to_vec(), it.value().to_vec()));
        it.next().unwrap();
    }
    out
}

#[test]
fn rejects_empty_arguments() {
    let mut e = engine(1 << 20);
    assert_eq!(e.put(b"", b"v").unwrap_err(), Error::InvalidArgument);
    assert_eq!(e.put(b"k", b"").unwrap_err(), Error::InvalidArgument);
    assert_eq!(e.delete(b"").unwrap_err(), Error::InvalidArgument);
}

#[test]
fn get_reads_most_recent_write() {
    let mut e = engine(1 << 20);
    e.put(b"k", b"v1").unwrap();
    assert_eq!(e.get(b"k").unwrap().unwrap(), b"v1".to_vec());
    e.put(b"k", b"v2").unwrap();
    assert_eq!(e.get(b"k").unwrap().unwrap(), b"v2".to_vec());
    assert!(e.get(b"other").unwrap().is_none());
}

#[test]
fn tombstones_hide_keys() {
    let mut e = engine(1 << 20);
    e.put(b"k", b"v").unwrap();
    e.delete(b"k").unwrap();
    // absent from point reads and from scans
    assert!(e.get(b"k").unwrap().is_none());
    assert_eq!(scan_all(&e), vec![]);
    // written, deleted, re-written: present with the latest value
    e.put(b"k", b"v2").unwrap();
    assert_eq!(e.get(b"k").unwrap().unwrap(), b"v2".to_vec());
    assert_eq!(scan_all(&e), vec![(b"k".to_vec(), b"v2".to_vec())]);
}

#[test]
fn tombstones_hide_frozen_values() {
    let mut e = engine(1 << 20);
    e.put(b"k", b"old").unwrap();
    e.freeze_memtable().unwrap();
    e.delete(b"k").unwrap();
    assert!(e.get(b"k").unwrap().is_none());
    assert_eq!(scan_all(&e), vec![]);
}

#[test]
fn scan_merges_across_freeze() {
    let mut e = engine(1 << 20);
    e.put(b"k", b"v1").unwrap();
    e.freeze_memtable().unwrap();
    e.put(b"k", b"v2").unwrap();
    // exactly one entry, carrying the value written after the freeze
    assert_eq!(scan_all(&e), vec![(b"k".to_vec(), b"v2".to_vec())]);
    e.put(b"a", b"1").unwrap();
    assert_eq!(
        scan_all(&e),
        vec![(b"a".to_vec(), b"1".to_vec()), (b"k".to_vec(), b"v2".to_vec())]
    );
    // the frozen value is still there for readers of older keys
    assert_eq!(e.get(b"k").unwrap().unwrap(), b"v2".to_vec());
}

#[test]
fn put_freezes_once_past_threshold() {
    // key + value is 8 bytes per write; the threshold is crossed on the
    // second write
    let mut e = engine(10);
    e.put(b"aaa", b"11111").unwrap();
    assert_eq!(e.state.immut_memtable.len(), 0);
    e.put(b"bbb", b"22222").unwrap();
    assert_eq!(e.state.immut_memtable.len(), 1);
    // the fresh active buffer is empty again: no duplicate freeze happens
    // for the same crossing even if a stale observation is replayed
    let stale_size = 16;
    e.try_freeze_memtable(stale_size).unwrap();
    assert_eq!(e.state.immut_memtable.len(), 1);
}

#[test]
fn freeze_keeps_generations_apart() {
    let mut e = engine(1 << 20);
    e.put(b"a", b"1").unwrap();
    e.freeze_memtable().unwrap();
    e.put(b"b", b"2").unwrap();
    e.freeze_memtable().unwrap();
    e.put(b"c", b"3").unwrap();
    assert_eq!(e.state.immut_memtable.len(), 2);
    // newest frozen buffer first
    assert!(e.state.immut_memtable[0].get(b"b").is_some());
    assert!(e.state.immut_memtable[1].get(b"a").is_some());
    assert_eq!(
        scan_all(&e),
        vec![
            (b"a".to_vec(), b"1".to_vec()),
            (b"b".to_vec(), b"2".to_vec()),
            (b"c".to_vec(), b"3".to_vec()),
        ]
    );
}

#[test]
fn scan_respects_bounds() {
    let mut e = engine(1 << 20);
    for (k, v) in [(b"a", b"1"), (b"b", b"2"), (b"c", b"3")] {
        e.put(k, v).unwrap();
    }
    let mut it = e
        .scan(&Bound::Included(b"b".to_vec()), &Bound::Unbounded)
        .unwrap();
    let mut out = Vec::new();
    while it.is_valid() {
        out.push(it.key().to_vec());
        it.next().unwrap();
    }
    assert_eq!(out, vec![b"b".to_vec(), b"c".to_vec()]);
}

#[test]
fn exhausted_scan_stays_exhausted() {
    let e = engine(1 << 20);
    let mut it = e.scan(&Bound::Unbounded, &Bound::Unbounded).unwrap();
    assert!(!it.is_valid());
    // stepping an exhausted, untainted iterator is a quiet no-op
    assert!(it.next().is_ok());
    assert!(!it.is_valid());
}
