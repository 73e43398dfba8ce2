use vstd::prelude::*;

verus! {

use std::sync::Arc;
use std::collections::HashMap;
use moka::sync::Cache;
use crate::Error;
use crate::block::Block;
use crate::iterator::merge_iterator::{MergeIterator, merged, has_key, lemma_merged_provenance, lemma_merged_complete};
use crate::iterator::sorted_strict;
use crate::lsm_iterator::lemma_live_entries_exact;
use crate::mem_table::{above_lower, below_upper};
use crate::lsm_iterator::{FusedIterator, LsmIterator, live_entries};
use crate::mem_table::{MemTable, MemTableIterator, Bound, range_snapshot};
use crate::iterator::StorageIterator;
use crate::table::SsTable;

/// Bounded cache of decoded blocks shared by all tables, keyed by table id
/// and block index, backed by a moka::sync::Cache. The cache evicts and
/// reorganizes itself on every access, so the field stays hidden and the
/// contents are spoken of only through `cache_view`.
#[verifier::external_body]
pub struct BlockCache {
    cache: Cache<(usize, usize), Arc<Block>>,
}

/// What the moka cache holds: under each (table id, block index) key, the
/// entry sequence of the block stored there; every wrapper around the
/// cache speaks of its contents through this name.
pub uninterp spec fn cache_view(c: BlockCache) -> Map<(int, int), Seq<(Seq<u8>, Seq<u8>)>>;

impl BlockCache {
    /// Relies on moka::sync::Cache::new: a fresh cache holds nothing.
    #[verifier::external_body]
    pub fn new(capacity: u64) -> (r: BlockCache)
        ensures
            forall|k: (int, int)| !(#[trigger] cache_view(r).contains_key(k)),
    {
        BlockCache { cache: Cache::new(capacity) }
    }

    /// Relies on moka::sync::Cache::get: a hit hands back a block that was
    /// stored under that key; the cache may drop entries at any moment but
    /// never alters one.
    #[verifier::external_body]
    pub fn get(&mut self, table_id: usize, block_idx: usize) -> (r: Option<Arc<Block>>)
        ensures
            match r {
                Some(b) => cache_view(*old(self)).contains_key((table_id as int, block_idx as int))
                    && (*b).entries() == cache_view(*old(self))[(table_id as int, block_idx as int)]
                    && (*b).wf(),
                None => true,
            },
            forall|k: (int, int)|
                #[trigger] cache_view(*final(self)).contains_key(k) ==> cache_view(
                    *old(self),
                ).contains_key(k) && cache_view(*final(self))[k] == cache_view(*old(self))[k],
    {
        self.cache.get(&(table_id, block_idx))
    }

    /// Relies on moka::sync::Cache::insert: stores the block under the key;
    /// the cache may drop entries at any moment but never alters one.
    #[verifier::external_body]
    pub fn insert(&mut self, table_id: usize, block_idx: usize, block: &Arc<Block>)
        requires
            (**block).wf(),
        ensures
            forall|k: (int, int)|
                #[trigger] cache_view(*final(self)).contains_key(k) ==> (k == (
                    table_id as int,
                    block_idx as int,
                ) && cache_view(*final(self))[k] == (**block).entries()) || (cache_view(
                    *old(self),
                ).contains_key(k) && cache_view(*final(self))[k] == cache_view(*old(self))[k]),
    {
        self.cache.insert((table_id, block_idx), Arc::clone(block));
    }
}

/// One copy-on-write snapshot of the engine: the active write buffer, the
/// frozen buffers most recent first, and the on-disk table layout.
pub struct LsmStorageState {
    pub memtable: MemTable,
    pub immut_memtable: Vec<MemTable>,
    pub l0_sstables: Vec<usize>,
    pub levels: Vec<(usize, Vec<usize>)>,
    pub sstables: HashMap<usize, SsTable>,
}

/// The chain of buffer contents a reader consults, newest first.
pub open spec fn view_chain(s: LsmStorageState) -> Seq<Map<Seq<u8>, Seq<u8>>> {
    seq![s.memtable.entries()] + s.immut_memtable@.map_values(|m: MemTable| m.entries())
}

/// The first hit for a key in the chain, starting at position `i`.
pub open spec fn chain_lookup_from(c: Seq<Map<Seq<u8>, Seq<u8>>>, i: int, k: Seq<u8>) -> Option<
    Seq<u8>,
>
    decreases c.len() - i,
{
    if i < 0 || i >= c.len() {
        None
    } else if c[i].contains_key(k) {
        Some(c[i][k])
    } else {
        chain_lookup_from(c, i + 1, k)
    }
}

/// What a point read observes in a snapshot: the most recent write to the
/// key, with a tombstone reading as absent.
pub open spec fn logical_get(s: LsmStorageState, k: Seq<u8>) -> Option<Seq<u8>> {
    match chain_lookup_from(view_chain(s), 0, k) {
        Some(v) => if v.len() > 0 {
            Some(v)
        } else {
            None
        },
        None => None,
    }
}

/// The recognized engine options.
pub struct LsmStorageConfig {
    pub block_size: usize,
    pub target_sst_size: usize,
    pub num_memtable_limit: usize,
    pub enable_wal: bool,
    pub serializable: bool,
}

/// The engine coordinator: one state snapshot, the shared block cache, and
/// the id counter for future tables.
pub struct LsmStorageInner {
    pub state: LsmStorageState,
    pub block_cache: BlockCache,
    pub next_sstable_id: usize,
    pub config: LsmStorageConfig,
}

impl LsmStorageInner {
    pub open spec fn wf(&self) -> bool {
        &&& self.state.memtable.wf()
        &&& forall|i: int|
            0 <= i < self.state.immut_memtable@.len() ==> (
            #[trigger] self.state.immut_memtable@[i]).wf()
    }

    /// The freeze transition happened: the old active buffer, with the pair
    /// written, now heads the frozen list, and a fresh buffer with the next
    /// table id took its place.
    pub open spec fn froze_after_write(pre: LsmStorageInner, post: LsmStorageInner, k: Seq<u8>, v: Seq<u8>) -> bool {
        &&& post.state.memtable.entries() == Map::<Seq<u8>, Seq<u8>>::empty()
        &&& post.state.memtable.approximate_size == 0
        &&& post.state.memtable.id == pre.next_sstable_id
        &&& post.next_sstable_id as int == if pre.next_sstable_id == usize::MAX {
            0
        } else {
            pre.next_sstable_id + 1
        }
        &&& post.state.immut_memtable@.len() == pre.state.immut_memtable@.len() + 1
        &&& post.state.immut_memtable@[0].entries() == pre.state.memtable.entries().insert(k, v)
        &&& forall|j: int|
            1 <= j < post.state.immut_memtable@.len() ==> post.state.immut_memtable@[j]
                == pre.state.immut_memtable@[j - 1]
    }

    /// The pair went into the active buffer and no freeze was needed.
    pub open spec fn wrote_in_place(pre: LsmStorageInner, post: LsmStorageInner, k: Seq<u8>, v: Seq<u8>) -> bool {
        &&& post.state.memtable.entries() == pre.state.memtable.entries().insert(k, v)
        &&& post.state.memtable.id == pre.state.memtable.id
        &&& post.state.memtable.approximate_size == Self::grown_size(pre, k, v)
        &&& post.next_sstable_id == pre.next_sstable_id
        &&& post.state.immut_memtable == pre.state.immut_memtable
    }

    /// The size counter after writing the pair into the active buffer.
    pub open spec fn grown_size(pre: LsmStorageInner, k: Seq<u8>, v: Seq<u8>) -> int {
        if pre.state.memtable.approximate_size + k.len() + v.len() > usize::MAX {
            usize::MAX as int
        } else {
            pre.state.memtable.approximate_size + k.len() + v.len()
        }
    }

    /// What one accepted write does to the engine: the pair lands in the
    /// active buffer; if the buffer's size counter then exceeds the target,
    /// exactly one freeze follows.
    pub open spec fn wrote(pre: LsmStorageInner, post: LsmStorageInner, k: Seq<u8>, v: Seq<u8>) -> bool {
        &&& if Self::grown_size(pre, k, v) > pre.config.target_sst_size {
            Self::froze_after_write(pre, post, k, v)
        } else {
            Self::wrote_in_place(pre, post, k, v)
        }
        &&& post.config == pre.config
        &&& post.state.l0_sstables == pre.state.l0_sstables
        &&& post.state.levels == pre.state.levels
        &&& post.state.sstables == pre.state.sstables
        &&& cache_view(post.block_cache) == cache_view(pre.block_cache)
    }

    /// Builds an empty engine around the given options.
    pub fn create(config: LsmStorageConfig) -> (r: LsmStorageInner)
        ensures
            r.wf(),
            r.state.memtable.entries() == Map::<Seq<u8>, Seq<u8>>::empty(),
            r.state.memtable.approximate_size == 0,
            r.state.immut_memtable@.len() == 0,
            r.next_sstable_id == 1,
            r.config == config,
    {
        LsmStorageInner {
            state: LsmStorageState {
                memtable: MemTable::create(0),
                immut_memtable: Vec::new(),
                l0_sstables: Vec::new(),
                levels: Vec::new(),
                sstables: HashMap::new(),
            },
            block_cache: BlockCache::new(4096),
            next_sstable_id: 1,
            config,
        }
    }

    /// Reads a key from the snapshot: active buffer first, then the frozen
    /// buffers newest first; the first hit wins, and a tombstone hides the
    /// key.
    pub fn get(&self, key: &[u8]) -> (r: Result<Option<Vec<u8>>, Error>)
        ensures
            match r {
                Ok(Some(v)) => logical_get(self.state, key@) == Some(v@),
                Ok(None) => logical_get(self.state, key@) is None,
                Err(_) => false,
            },
    {
        let ghost chain = view_chain(self.state);
        if let Some(value) = self.state.memtable.get(key) {
            proof {
                assert(chain[0] == self.state.memtable.entries());
            }
            if value.len() == 0 {
                return Ok(None);
            }
            return Ok(Some(value));
        }
        proof {
            assert(chain[0] == self.state.memtable.entries());
        }
        let n = self.state.immut_memtable.len();
        let mut i: usize = 0;
        while i < n
            invariant
                i <= n,
                n == self.state.immut_memtable@.len(),
                chain == view_chain(self.state),
                chain.len() == n + 1,
                forall|j: int|
                    1 <= j < chain.len() ==> chain[j] == (
                    #[trigger] self.state.immut_memtable@[j - 1]).entries(),
                chain_lookup_from(chain, 0, key@) == chain_lookup_from(chain, 1 + i, key@),
            decreases n - i,
        {
            let memtable = &self.state.immut_memtable[i];
            if let Some(value) = memtable.get(key) {
                proof {
                    assert(chain[1 + i as int] == memtable.entries());
                }
                if value.len() == 0 {
                    return Ok(None);
                }
                return Ok(Some(value));
            }
            proof {
                assert(chain[1 + i as int] == memtable.entries());
            }
            i = i + 1;
        }
        Ok(None)
    }

    /// Writes a real value; empty keys and empty values are rejected, the
    /// empty value being the tombstone encoding.
    pub fn put(&mut self, key: &[u8], value: &[u8]) -> (r: Result<(), Error>)
        requires
            old(self).wf(),
        ensures
            final(self).wf(),
            match r {
                Ok(_) => key@.len() > 0 && value@.len() > 0 && Self::wrote(
                    *old(self),
                    *final(self),
                    key@,
                    value@,
                ),
                Err(e) => (key@.len() == 0 || value@.len() == 0) && e == Error::InvalidArgument
                    && *final(self) == *old(self),
            },
    {
        if key.len() == 0 || value.len() == 0 {
            return Err(Error::InvalidArgument);
        }
        let res = self.state.memtable.put(key, value);
        if res.is_err() {
            proof {
                assert(false);
            }
            return Err(Error::Io);
        }
        let size = self.state.memtable.approximate_size();
        self.try_freeze_memtable(size)
    }

    /// Writes a tombstone for the key; only the empty key is rejected.
    pub fn delete(&mut self, key: &[u8]) -> (r: Result<(), Error>)
        requires
            old(self).wf(),
        ensures
            final(self).wf(),
            match r {
                Ok(_) => key@.len() > 0 && Self::wrote(
                    *old(self),
                    *final(self),
                    key@,
                    Seq::<u8>::empty(),
                ),
                Err(e) => key@.len() == 0 && e == Error::InvalidArgument && *final(self) == *old(
                    self,
                ),
            },
    {
        if key.len() == 0 {
            return Err(Error::InvalidArgument);
        }
        let empty_value: Vec<u8> = Vec::new();
        let res = self.state.memtable.put(key, empty_value.as_slice());
        if res.is_err() {
            proof {
                assert(false);
            }
            return Err(Error::Io);
        }
        let size = self.state.memtable.approximate_size();
        self.try_freeze_memtable(size)
    }

    /// Freezes only when both the size a writer observed and the size read
    /// back under the transition lock exceed the target: of several writers
    /// racing past the threshold, only the first one freezes.
    pub fn try_freeze_memtable(&mut self, size: usize) -> (r: Result<(), Error>)
        requires
            old(self).wf(),
        ensures
            r is Ok,
            final(self).wf(),
            final(self).config == old(self).config,
            cache_view(final(self).block_cache) == cache_view(old(self).block_cache),
            if size > old(self).config.target_sst_size
                && old(self).state.memtable.approximate_size
                > old(self).config.target_sst_size {
                Self::froze(*old(self), *final(self))
            } else {
                *final(self) == *old(self)
            },
    {
        if size > self.config.target_sst_size {
            let current = self.state.memtable.approximate_size();
            if current > self.config.target_sst_size {
                return self.freeze_memtable();
            }
        }
        Ok(())
    }

    /// The freeze transition itself, without a write folded in.
    pub open spec fn froze(pre: LsmStorageInner, post: LsmStorageInner) -> bool {
        &&& post.state.memtable.entries() == Map::<Seq<u8>, Seq<u8>>::empty()
        &&& post.state.memtable.approximate_size == 0
        &&& post.state.memtable.id == pre.next_sstable_id
        &&& post.next_sstable_id as int == if pre.next_sstable_id == usize::MAX {
            0
        } else {
            pre.next_sstable_id + 1
        }
        &&& post.state.immut_memtable@.len() == pre.state.immut_memtable@.len() + 1
        &&& post.state.immut_memtable@[0] == pre.state.memtable
        &&& forall|j: int|
            1 <= j < post.state.immut_memtable@.len() ==> post.state.immut_memtable@[j]
                == pre.state.immut_memtable@[j - 1]
        &&& post.state.l0_sstables == pre.state.l0_sstables
        &&& post.state.levels == pre.state.levels
        &&& post.state.sstables == pre.state.sstables
        &&& post.config == pre.config
    }

    /// Detaches the active buffer into the frozen list and installs a
    /// fresh, empty buffer under a newly allocated table id.
    pub fn freeze_memtable(&mut self) -> (r: Result<(), Error>)
        requires
            old(self).wf(),
        ensures
            r is Ok,
            final(self).wf(),
            Self::froze(*old(self), *final(self)),
            cache_view(final(self).block_cache) == cache_view(old(self).block_cache),
    {
        let new_memtable_id = self.next_sst_id();
        let mut swapped = MemTable::create(new_memtable_id);
        core::mem::swap(&mut self.state.memtable, &mut swapped);
        self.state.immut_memtable.insert(0, swapped);
        Ok(())
    }

    /// Hands out the next table id.
    pub fn next_sst_id(&mut self) -> (r: usize)
        ensures
            r == old(self).next_sstable_id,
            final(self).next_sstable_id as int == if old(self).next_sstable_id == usize::MAX {
                0
            } else {
                old(self).next_sstable_id + 1
            },
            final(self).state == old(self).state,
            final(self).config == old(self).config,
            final(self).block_cache == old(self).block_cache,
    {
        let id = self.next_sstable_id;
        self.next_sstable_id = self.next_sstable_id.wrapping_add(1);
        id
    }

    /// Builds a snapshot iterator over the range: one cursor per buffer,
    /// the active one ranked first, merged, with tombstones filtered and
    /// the whole guarded against use after an error.
    pub fn scan(&self, lower: &Bound, upper: &Bound) -> (r: Result<
        FusedIterator<LsmIterator>,
        Error,
    >)
        ensures
            match r {
                Ok(it) => {
                    &&& it.inv()
                    &&& exists|ss: Seq<Seq<(Seq<u8>, Seq<u8>)>>|
                        {
                            &&& ss.len() == view_chain(self.state).len()
                            &&& (forall|i: int|
                                0 <= i < ss.len() ==> range_snapshot(
                                    view_chain(self.state)[i],
                                    *lower,
                                    *upper,
                                    #[trigger] ss[i],
                                ))
                            &&& it.remaining() == live_entries(merged(ss))
                        }
                },
                Err(_) => false,
            },
    {
        let ghost chain = view_chain(self.state);
        let mut memtable_iters: Vec<Box<MemTableIterator>> = Vec::new();
        memtable_iters.push(Box::new(self.state.memtable.scan(lower, upper)));
        proof {
            assert(chain[0] == self.state.memtable.entries());
        }
        let n = self.state.immut_memtable.len();
        let mut i: usize = 0;
        while i < n
            invariant
                i <= n,
                n == self.state.immut_memtable@.len(),
                chain == view_chain(self.state),
                chain.len() == n + 1,
                forall|j: int|
                    1 <= j < chain.len() ==> chain[j] == (
                    #[trigger] self.state.immut_memtable@[j - 1]).entries(),
                memtable_iters@.len() == i + 1,
                forall|j: int|
                    0 <= j < memtable_iters@.len() ==> (*#[trigger] memtable_iters@[j]).inv()
                        && range_snapshot(
                        chain[j],
                        *lower,
                        *upper,
                        (*memtable_iters@[j]).remaining(),
                    ),
            decreases n - i,
        {
            let memtable = &self.state.immut_memtable[i];
            proof {
                assert(chain[1 + i as int] == memtable.entries());
            }
            memtable_iters.push(Box::new(memtable.scan(lower, upper)));
            i = i + 1;
        }
        let ghost ss = memtable_iters@.map_values(|b: Box<MemTableIterator>| (*b).remaining());
        proof {
            assert forall|j: int| 0 <= j < memtable_iters@.len() implies (
            #[trigger] *memtable_iters@[j]).never_fails() by {}
        }
        let iter = MergeIterator::create(memtable_iters);
        let lsm = match LsmIterator::new(iter) {
            Ok(it) => it,
            Err(e) => {
                proof {
                    assert(false);
                }
                return Err(e);
            },
        };
        let fused = FusedIterator::new(lsm);
        Ok(fused)
    }
}

/// The engine's public face; the surrounding process wires it to its locks
/// and background tasks.
pub struct MiniLsm {}

/// A lookup lands on the first buffer in the chain that holds the key.
pub proof fn lemma_chain_lookup_first_hit(c: Seq<Map<Seq<u8>, Seq<u8>>>, k: Seq<u8>, i: int, j: int)
    requires
        0 <= i <= j < c.len(),
        forall|l: int| i <= l < j ==> !(#[trigger] c[l]).contains_key(k),
        c[j].contains_key(k),
    ensures
        chain_lookup_from(c, i, k) == Some(c[j][k]),
    decreases j - i,
{
    if i < j {
        lemma_chain_lookup_first_hit(c, k, i + 1, j);
    }
}

/// A lookup that found something did land on a first hit.
pub proof fn lemma_chain_lookup_found(c: Seq<Map<Seq<u8>, Seq<u8>>>, k: Seq<u8>, i: int)
    requires
        0 <= i,
    ensures
        match chain_lookup_from(c, i, k) {
            Some(v) => exists|j: int|
                i <= j < c.len() && (#[trigger] c[j]).contains_key(k) && c[j][k] == v && forall|
                    l: int,
                | i <= l < j ==> !(#[trigger] c[l]).contains_key(k),
            None => forall|l: int| i <= l < c.len() ==> !(#[trigger] c[l]).contains_key(k),
        },
    decreases c.len() - i,
{
    if i < c.len() {
        lemma_chain_lookup_found(c, k, i + 1);
        if !c[i].contains_key(k) {
            match chain_lookup_from(c, i + 1, k) {
                Some(v) => {
                    let j = choose|j: int|
                        i + 1 <= j < c.len() && (#[trigger] c[j]).contains_key(k) && c[j][k] == v
                            && forall|l: int| i + 1 <= l < j ==> !(#[trigger] c[l]).contains_key(k);
                    assert(i <= j < c.len() && c[j].contains_key(k) && c[j][k] == v && forall|
                        l: int,
                    | i <= l < j ==> !(#[trigger] c[l]).contains_key(k));
                },
                None => {},
            }
        }
    }
}

/// A range scan shows exactly what point reads observe: an entry is
/// delivered for a key if and only if the key lies within the bounds and a
/// lookup through the same chain of buffers returns that value, with
/// tombstones hidden from both.
pub proof fn lemma_scan_matches_get(
    chain: Seq<Map<Seq<u8>, Seq<u8>>>,
    ss: Seq<Seq<(Seq<u8>, Seq<u8>)>>,
    lower: Bound,
    upper: Bound,
    k: Seq<u8>,
    v: Seq<u8>,
)
    requires
        ss.len() == chain.len(),
        forall|i: int|
            0 <= i < ss.len() ==> range_snapshot(chain[i], lower, upper, #[trigger] ss[i]),
    ensures
        live_entries(merged(ss)).contains((k, v)) <==> {
            &&& above_lower(k, lower)
            &&& below_upper(k, upper)
            &&& v.len() > 0
            &&& chain_lookup_from(chain, 0, k) == Some(v)
        },
{
    assert forall|i: int| 0 <= i < ss.len() implies sorted_strict(#[trigger] ss[i]) by {
        assert(range_snapshot(chain[i], lower, upper, ss[i]));
    }
    lemma_live_entries_exact(merged(ss), (k, v));
    if live_entries(merged(ss)).contains((k, v)) {
        let t = choose|t: int| 0 <= t < merged(ss).len() && merged(ss)[t] == (k, v);
        lemma_merged_provenance(ss, t);
        let j = choose|j: int|
            0 <= j < ss.len() && (#[trigger] has_key(ss[j], merged(ss)[t].0)) && ss[j].contains(
                merged(ss)[t],
            ) && forall|l: int| 0 <= l < j ==> !has_key(#[trigger] ss[l], merged(ss)[t].0);
        let u = choose|u: int| 0 <= u < ss[j].len() && ss[j][u] == (k, v);
        assert(range_snapshot(chain[j], lower, upper, ss[j]));
        assert(chain[j].contains_key(k) && chain[j][k] == v && above_lower(k, lower)
            && below_upper(k, upper)) by {
            assert(ss[j][u] == (k, v));
        }
        assert forall|l: int| 0 <= l < j implies !(#[trigger] chain[l]).contains_key(k) by {
            if chain[l].contains_key(k) {
                assert(range_snapshot(chain[l], lower, upper, ss[l]));
                let w = choose|w: int| 0 <= w < ss[l].len() && (#[trigger] ss[l][w]).0 == k;
                assert(has_key(ss[l], k)) by {
                    assert(ss[l][w].0 == k);
                }
                assert(false);
            }
        }
        lemma_chain_lookup_first_hit(chain, k, 0, j);
    }
    if above_lower(k, lower) && below_upper(k, upper) && v.len() > 0 && chain_lookup_from(
        chain,
        0,
        k,
    ) == Some(v) {
        lemma_chain_lookup_found(chain, k, 0);
        let j = choose|j: int|
            0 <= j < chain.len() && (#[trigger] chain[j]).contains_key(k) && chain[j][k] == v
                && forall|l: int| 0 <= l < j ==> !(#[trigger] chain[l]).contains_key(k);
        assert(range_snapshot(chain[j], lower, upper, ss[j]));
        let u = choose|u: int| 0 <= u < ss[j].len() && (#[trigger] ss[j][u]).0 == k;
        assert(ss[j][u].1 == chain[j][k]);
        assert(ss[j][u] == (k, v));
        assert forall|l: int| 0 <= l < j implies !has_key(#[trigger] ss[l], ss[j][u].0) by {
            if has_key(ss[l], k) {
                let w = choose|w: int| 0 <= w < ss[l].len() && ss[l][w].0 == k;
                assert(range_snapshot(chain[l], lower, upper, ss[l]));
                assert(chain[l].contains_key(k)) by {
                    assert(ss[l][w] == ss[l][w]);
                }
                assert(false);
            }
        }
        lemma_merged_complete(ss, j, u);
        assert(merged(ss).contains((k, v)));
    }
}


} // verus!
