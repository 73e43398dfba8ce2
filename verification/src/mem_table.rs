use vstd::prelude::*;

verus! {

use crossbeam_skiplist::SkipMap;
use crate::Error;
use crate::key::{lex_lt, copy_bytes};
use crate::iterator::{StorageIterator, sorted_strict};

#[verifier::external_type_specification]
#[verifier::external_body]
#[verifier::reject_recursive_types(K)]
#[verifier::reject_recursive_types(V)]
pub struct ExSkipMap<K, V>(SkipMap<K, V>);

/// What a crossbeam_skiplist::SkipMap holds, as a mathematical map from
/// key to value; every wrapper around the map speaks of its contents
/// through this name.
pub uninterp spec fn skipmap_view(m: SkipMap<Vec<u8>, Vec<u8>>) -> Map<Seq<u8>, Seq<u8>>;

/// One end of a scan range.
pub enum Bound {
    Unbounded,
    Included(Vec<u8>),
    Excluded(Vec<u8>),
}

/// Whether a key lies on or above a lower bound.
pub open spec fn above_lower(k: Seq<u8>, b: Bound) -> bool {
    match b {
        Bound::Unbounded => true,
        Bound::Included(l) => !lex_lt(k, l@),
        Bound::Excluded(l) => lex_lt(l@, k),
    }
}

/// Whether a key lies on or below an upper bound.
pub open spec fn below_upper(k: Seq<u8>, b: Bound) -> bool {
    match b {
        Bound::Unbounded => true,
        Bound::Included(u) => !lex_lt(u@, k),
        Bound::Excluded(u) => lex_lt(k, u@),
    }
}

/// Turns a borrowed bound into an owned one that bounds the same keys.
pub fn map_bound(b: &Bound) -> (r: Bound)
    ensures
        forall|k: Seq<u8>| above_lower(k, r) == above_lower(k, *b),
        forall|k: Seq<u8>| below_upper(k, r) == below_upper(k, *b),
{
    match b {
        Bound::Unbounded => Bound::Unbounded,
        Bound::Included(key) => Bound::Included(copy_bytes(key.as_slice())),
        Bound::Excluded(key) => Bound::Excluded(copy_bytes(key.as_slice())),
    }
}

/// `s` is the sorted sequence of exactly those entries of `m` whose keys lie
/// within the bounds.
pub open spec fn range_snapshot(
    m: Map<Seq<u8>, Seq<u8>>,
    lower: Bound,
    upper: Bound,
    s: Seq<(Seq<u8>, Seq<u8>)>,
) -> bool {
    &&& sorted_strict(s)
    &&& forall|i: int|
        0 <= i < s.len() ==> {
            let kv = #[trigger] s[i];
            &&& m.contains_key(kv.0)
            &&& kv.1 == m[kv.0]
            &&& above_lower(kv.0, lower)
            &&& below_upper(kv.0, upper)
        }
    &&& forall|k: Seq<u8>|
        #![auto]
        m.contains_key(k) && above_lower(k, lower) && below_upper(k, upper) ==> exists|i: int|
            0 <= i < s.len() && (#[trigger] s[i]).0 == k
}

/// Relies on crossbeam_skiplist::SkipMap::new: a freshly created map is empty.
#[verifier::external_body]
fn skipmap_new() -> (m: SkipMap<Vec<u8>, Vec<u8>>)
    ensures
        forall|k: Seq<u8>| !(#[trigger] skipmap_view(m).contains_key(k)),
{
    SkipMap::new()
}

/// Relies on crossbeam_skiplist::SkipMap::insert: the pair is stored under
/// the key, replacing any earlier entry with that key; no other entry moves.
#[verifier::external_body]
fn skipmap_insert(m: &mut SkipMap<Vec<u8>, Vec<u8>>, key: Vec<u8>, value: Vec<u8>)
    ensures
        skipmap_view(*final(m)) == skipmap_view(*old(m)).insert(key@, value@),
{
    m.insert(key, value);
}

/// Relies on crossbeam_skiplist::SkipMap::get: the value stored under the
/// key, if the key is present.
#[verifier::external_body]
fn skipmap_get(m: &SkipMap<Vec<u8>, Vec<u8>>, key: &[u8]) -> (r: Option<Vec<u8>>)
    ensures
        match r {
            Some(v) => skipmap_view(*m).contains_key(key@) && v@ == skipmap_view(*m)[key@],
            None => !skipmap_view(*m).contains_key(key@),
        },
{
    m.get(key).map(|e| e.value().clone())
}

/// Relies on crossbeam_skiplist::SkipMap::range: the entries whose keys fall
/// within the bounds, visited in ascending key order.
#[verifier::external_body]
fn skipmap_collect_range(m: &SkipMap<Vec<u8>, Vec<u8>>, lower: &Bound, upper: &Bound) -> (r: Vec<
    (Vec<u8>, Vec<u8>),
>)
    ensures
        range_snapshot(
            skipmap_view(*m),
            *lower,
            *upper,
            r@.map_values(|e: (Vec<u8>, Vec<u8>)| (e.0@, e.1@)),
        ),
{
    let lo = match lower {
        Bound::Unbounded => std::ops::Bound::Unbounded,
        Bound::Included(k) => std::ops::Bound::Included(k.as_slice()),
        Bound::Excluded(k) => std::ops::Bound::Excluded(k.as_slice()),
    };
    let hi = match upper {
        Bound::Unbounded => std::ops::Bound::Unbounded,
        Bound::Included(k) => std::ops::Bound::Included(k.as_slice()),
        Bound::Excluded(k) => std::ops::Bound::Excluded(k.as_slice()),
    };
    m.range::<[u8], _>((lo, hi)).map(|e| (e.key().clone(), e.value().clone())).collect()
}

/// The in-memory write buffer: an ordered map plus a running byte counter.
/// A zero-length value marks a deletion; map entries are only ever
/// superseded, never removed.
pub struct MemTable {
    pub map: SkipMap<Vec<u8>, Vec<u8>>,
    pub id: usize,
    pub approximate_size: usize,
}

impl MemTable {
    /// The logical contents of the buffer.
    pub open spec fn entries(&self) -> Map<Seq<u8>, Seq<u8>> {
        skipmap_view(self.map)
    }

    /// Every stored key is non-empty; callers must reject empty keys.
    pub open spec fn wf(&self) -> bool {
        forall|k: Seq<u8>| #[trigger] self.entries().contains_key(k) ==> k.len() > 0
    }

    pub fn create(id: usize) -> (r: MemTable)
        ensures
            r.wf(),
            r.entries() == Map::<Seq<u8>, Seq<u8>>::empty(),
            r.id == id,
            r.approximate_size == 0,
    {
        MemTable { id, map: skipmap_new(), approximate_size: 0 }
    }

    /// Looks the key up; a stored empty value (a tombstone) is returned as
    /// such, the caller decides what it means.
    pub fn get(&self, key: &[u8]) -> (r: Option<Vec<u8>>)
        ensures
            match r {
                Some(v) => self.entries().contains_key(key@) && v@ == self.entries()[key@],
                None => !self.entries().contains_key(key@),
            },
    {
        skipmap_get(&self.map, key)
    }

    /// Stores the pair and grows the byte counter by the entry size, pinned
    /// at the top of `usize`. Deletion is a put of the empty value.
    pub fn put(&mut self, key: &[u8], value: &[u8]) -> (r: Result<(), Error>)
        requires
            old(self).wf(),
            key@.len() > 0,
        ensures
            r is Ok,
            final(self).wf(),
            final(self).entries() == old(self).entries().insert(key@, value@),
            final(self).id == old(self).id,
            final(self).approximate_size as int == if old(self).approximate_size + key@.len()
                + value@.len() > usize::MAX {
                usize::MAX as int
            } else {
                old(self).approximate_size + key@.len() + value@.len()
            },
    {
        let estimated_size = key.len().saturating_add(value.len());
        let k = copy_bytes(key);
        let v = copy_bytes(value);
        skipmap_insert(&mut self.map, k, v);
        self.approximate_size = self.approximate_size.saturating_add(estimated_size);
        proof {
            assert forall|q: Seq<u8>| #[trigger] self.entries().contains_key(q) implies q.len()
                > 0 by {
                if q != key@ {
                    assert(old(self).entries().contains_key(q));
                }
            }
        }
        Ok(())
    }

    pub fn approximate_size(&self) -> (r: usize)
        ensures
            r == self.approximate_size,
    {
        self.approximate_size
    }

    /// Captures the entries within the bounds, in key order, as an iterator.
    pub fn scan(&self, lower: &Bound, upper: &Bound) -> (r: MemTableIterator)
        ensures
            r.inv(),
            range_snapshot(self.entries(), *lower, *upper, r.remaining()),
    {
        let entries = skipmap_collect_range(&self.map, lower, upper);
        let r = MemTableIterator { entries, idx: 0 };
        proof {
            assert(r.stream().skip(0) =~= r.stream());
        }
        r
    }
}

/// A cursor over the snapshot a `MemTable::scan` took.
pub struct MemTableIterator {
    pub entries: Vec<(Vec<u8>, Vec<u8>)>,
    pub idx: usize,
}

impl MemTableIterator {
    /// The whole snapshot, first to last.
    pub open spec fn stream(&self) -> Seq<(Seq<u8>, Seq<u8>)> {
        self.entries@.map_values(|e: (Vec<u8>, Vec<u8>)| (e.0@, e.1@))
    }
}

impl StorageIterator for MemTableIterator {
    open spec fn inv(&self) -> bool {
        &&& self.idx <= self.entries@.len()
        &&& sorted_strict(self.stream())
    }

    open spec fn remaining(&self) -> Seq<(Seq<u8>, Seq<u8>)> {
        self.stream().skip(self.idx as int)
    }

    open spec fn never_fails(&self) -> bool {
        true
    }

    fn is_valid(&self) -> (r: bool)
        ensures
            r == (self.remaining().len() > 0),
    {
        self.idx < self.entries.len()
    }

    fn key(&self) -> (r: &[u8])
        ensures
            r@ == self.remaining()[0].0,
    {
        let pair: &(Vec<u8>, Vec<u8>) = &self.entries[self.idx];
        proof {
            assert(self.remaining()[0] == self.stream()[self.idx as int]);
        }
        pair.0.as_slice()
    }

    fn value(&self) -> (r: &[u8])
        ensures
            r@ == self.remaining()[0].1,
    {
        let pair: &(Vec<u8>, Vec<u8>) = &self.entries[self.idx];
        proof {
            assert(self.remaining()[0] == self.stream()[self.idx as int]);
        }
        pair.1.as_slice()
    }

    fn next(&mut self) -> (r: Result<(), Error>)
        ensures
            r is Ok,
            r is Ok && old(self).remaining().len() > 0 ==> final(self).inv() && final(self).remaining() == old(self).remaining().skip(1),
            r is Ok && old(self).remaining().len() == 0 ==> final(self).inv() && final(self).remaining().len() == 0,
    {
        if self.idx < self.entries.len() {
            self.idx = self.idx + 1;
            proof {
                assert(self.stream().skip(self.idx as int) =~= old(self).stream().skip(
                    old(self).idx as int,
                ).skip(1));
            }
        }
        Ok(())
    }
}

/// One logical write against a buffer: a put of a real value, or a delete,
/// which stores the empty tombstone value.
pub enum WriteOp {
    Put { key: Seq<u8>, value: Seq<u8> },
    Delete { key: Seq<u8> },
}

pub open spec fn op_key(op: WriteOp) -> Seq<u8> {
    match op {
        WriteOp::Put { key, .. } => key,
        WriteOp::Delete { key } => key,
    }
}

/// The value an operation stores: deletes store the tombstone.
pub open spec fn op_value(op: WriteOp) -> Seq<u8> {
    match op {
        WriteOp::Put { value, .. } => value,
        WriteOp::Delete { .. } => Seq::empty(),
    }
}

/// What one operation does to the buffer contents; this is exactly what
/// `MemTable::put` promises for each write.
pub open spec fn apply_op(m: Map<Seq<u8>, Seq<u8>>, op: WriteOp) -> Map<Seq<u8>, Seq<u8>> {
    m.insert(op_key(op), op_value(op))
}

/// A whole history of writes applied in order.
pub open spec fn apply_ops(m: Map<Seq<u8>, Seq<u8>>, ops: Seq<WriteOp>) -> Map<Seq<u8>, Seq<u8>>
    decreases ops.len(),
{
    if ops.len() == 0 {
        m
    } else {
        apply_op(apply_ops(m, ops.drop_last()), ops.last())
    }
}

/// The most recent operation in the history that touched `k`.
pub open spec fn last_write(ops: Seq<WriteOp>, k: Seq<u8>) -> Option<WriteOp>
    decreases ops.len(),
{
    if ops.len() == 0 {
        None
    } else if op_key(ops.last()) == k {
        Some(ops.last())
    } else {
        last_write(ops.drop_last(), k)
    }
}

/// After any sequence of puts and deletes, a lookup observes exactly the
/// most recent write to that key: a put reads back its value, a delete
/// reads back the tombstone, and an untouched key keeps what the buffer
/// started with.
pub proof fn lemma_last_write_wins(m0: Map<Seq<u8>, Seq<u8>>, ops: Seq<WriteOp>, k: Seq<u8>)
    ensures
        match last_write(ops, k) {
            Some(op) => apply_ops(m0, ops).contains_key(k) && apply_ops(m0, ops)[k] == op_value(
                op,
            ),
            None => (apply_ops(m0, ops).contains_key(k) <==> m0.contains_key(k)) && (
            m0.contains_key(k) ==> apply_ops(m0, ops)[k] == m0[k]),
        },
    decreases ops.len(),
{
    if ops.len() > 0 {
        lemma_last_write_wins(m0, ops.drop_last(), k);
    }
}


} // verus!
