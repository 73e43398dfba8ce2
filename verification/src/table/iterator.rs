use vstd::prelude::*;

verus! {

use std::sync::Arc;
use crate::Error;
use crate::key::lex_lt;
use crate::block::iterator::BlockIterator;
use crate::lsm_storage::BlockCache;
use crate::table::SsTable;

/// A cursor over a whole table: the index of the block it stands in and a
/// block cursor within it. Past the last entry of the last block the inner
/// cursor is invalid and the table cursor with it.
pub struct SsTableIterator {
    pub table: Arc<SsTable>,
    pub block_iter: BlockIterator,
    pub block_idx: usize,
}

/// When a key precedes a block's first summary key it precedes the
/// block's first entry too.
proof fn lemma_bump_lands_at_or_after(t: &SsTable, j: int, key: Seq<u8>)
    requires
        t.wf(),
        0 < j < t.num_blocks_spec(),
        lex_lt(key, t.block_meta@[j].first_key@),
    ensures
        !lex_lt(t.block_entries_at(j)[0].0, key),
        t.block_entries_at(j).len() > 0,
{
    assert(t.block_ok(j));
    crate::key::lemma_lex_cmp_antisym(key, t.block_entries_at(j)[0].0);
    crate::key::lemma_lex_cmp_range(key, t.block_entries_at(j)[0].0);
}

/// When the last entry of the last block precedes a key, the whole table
/// does.
proof fn lemma_runs_off_end(t: &SsTable, key: Seq<u8>)
    requires
        t.wf(),
        ({
            let es = t.block_entries_at(t.num_blocks_spec() - 1);
            es.len() > 0 && lex_lt(es[es.len() - 1].0, key)
        }),
    ensures
        lex_lt(t.last_key@, key),
{
    assert(t.block_ok(t.num_blocks_spec() - 1));
}

/// Every entry of every block before block `b` comes strictly before any
/// key at or above block `b`'s first key.
proof fn lemma_blocks_before_key(t: &SsTable, b: int, key: Seq<u8>)
    requires
        t.wf(),
        0 <= b < t.num_blocks_spec(),
        !lex_lt(key, t.block_meta@[b].first_key@),
    ensures
        forall|j: int, u: int|
            0 <= j < b && 0 <= u < t.block_entries_at(j).len() ==> lex_lt(
                (#[trigger] t.block_entries_at(j)[u]).0,
                key,
            ),
{
    assert forall|j: int, u: int|
        0 <= j < b && 0 <= u < t.block_entries_at(j).len() implies lex_lt(
        (#[trigger] t.block_entries_at(j)[u]).0,
        key,
    ) by {
        assert(t.block_ok(j));
        assert(t.block_ok(b));
        let es = t.block_entries_at(j);
        let p = crate::block::recover_block(t.block_region(j)) -> Some_0;
        let a = es[u].0;
        let lk = t.block_meta@[j].last_key@;
        let fk1 = t.block_meta@[j + 1].first_key@;
        let fkb = t.block_meta@[b].first_key@;
        crate::key::lemma_lex_cmp_eq(a, lk);
        if u < es.len() - 1 {
            crate::block::lemma_entries_sorted(p.0, p.1, u, es.len() - 1);
        }
        crate::key::lemma_lex_cmp_eq(fk1, fkb);
        if j + 1 < b {
            t.lemma_first_keys_sorted(j + 1, b);
        }
        crate::key::lemma_lex_cmp_antisym(key, fkb);
        crate::key::lemma_lex_cmp_range(key, fkb);
        crate::key::lemma_lex_trans(a, lk, fk1);
        crate::key::lemma_lex_trans(a, fk1, fkb);
        crate::key::lemma_lex_trans(a, fkb, key);
    }
}

/// Once a block's last entry falls below a key, every entry up to and
/// including that block does.
proof fn lemma_table_prefix_below(t: &SsTable, r: int, key: Seq<u8>)
    requires
        t.wf(),
        0 <= r < t.num_blocks_spec(),
        ({
            let es = t.block_entries_at(r);
            es.len() > 0 && lex_lt(es[es.len() - 1].0, key)
        }),
    ensures
        forall|j: int, u: int|
            0 <= j <= r && 0 <= u < t.block_entries_at(j).len() ==> lex_lt(
                (#[trigger] t.block_entries_at(j)[u]).0,
                key,
            ),
{
    assert(t.block_ok(r));
    let esr = t.block_entries_at(r);
    let fkr = t.block_meta@[r].first_key@;
    let lkr = t.block_meta@[r].last_key@;
    let pr = crate::block::recover_block(t.block_region(r)) -> Some_0;
    // the block's own entries are all below the key
    assert forall|u: int| 0 <= u < esr.len() implies lex_lt((#[trigger] esr[u]).0, key) by {
        crate::key::lemma_lex_cmp_eq(esr[u].0, lkr);
        if u < esr.len() - 1 {
            crate::block::lemma_entries_sorted(pr.0, pr.1, u, esr.len() - 1);
        }
        crate::key::lemma_lex_trans(esr[u].0, lkr, key);
    }
    // so the key sits at or above the block's first key
    assert(lex_lt(fkr, key));
    crate::key::lemma_lex_cmp_antisym(key, fkr);
    crate::key::lemma_lex_cmp_range(key, fkr);
    lemma_blocks_before_key(t, r, key);
    assert forall|j: int, u: int|
        0 <= j <= r && 0 <= u < t.block_entries_at(j).len() implies lex_lt(
        (#[trigger] t.block_entries_at(j)[u]).0,
        key,
    ) by {
        if j == r {
            assert(lex_lt(esr[u].0, key));
        }
    }
}

impl SsTableIterator {
    pub open spec fn tbl(&self) -> SsTable {
        *self.table
    }

    pub open spec fn inv(&self) -> bool {
        &&& self.tbl().wf()
        &&& self.block_iter.inv()
        &&& self.block_idx <= self.tbl().num_blocks_spec()
        &&& (self.block_idx < self.tbl().num_blocks_spec() ==> self.block_iter.blk().entries()
            == self.tbl().block_entries_at(self.block_idx as int))
        &&& (self.block_idx == self.tbl().num_blocks_spec() ==> !self.block_iter.valid())
    }

    pub open spec fn valid(&self) -> bool {
        self.block_iter.valid()
    }

    /// Opens block 0 and stands on its first entry.
    pub fn create_first_block_iterator_and_seek_to_first_pair(
        table: &Arc<SsTable>,
        cache: &mut BlockCache,
    ) -> (r: Result<(usize, BlockIterator), Error>)
        requires
            (**table).wf(),
            (**table).cache_ok(*old(cache)),
        ensures
            (**table).cache_ok(*final(cache)),
            match r {
                Ok(p) => {
                    &&& p.0 == 0
                    &&& p.1.inv()
                    &&& p.1.blk().entries() == (**table).block_entries_at(0)
                    &&& p.1.valid()
                    &&& p.1.pos() == 0
                },
                Err(_) => false,
            },
    {
        proof {
            assert((**table).block_ok(0));
        }
        let first_block = table.read_block_cache(cache, 0)?;
        let block_iterator = BlockIterator::create_and_seek_to_first(first_block);
        Ok((0, block_iterator))
    }

    /// Finds the block that owns `key` and stands on the first entry at or
    /// after it; runs over into the next block, or off the table, when the
    /// key falls past the block's last entry.
    #[verifier::rlimit(100)]
    pub fn create_block_iterator_and_seek_to_key(
        table: &Arc<SsTable>,
        cache: &mut BlockCache,
        key: &[u8],
    ) -> (r: Result<(usize, BlockIterator), Error>)
        requires
            (**table).wf(),
            (**table).cache_ok(*old(cache)),
        ensures
            (**table).cache_ok(*final(cache)),
            match r {
                Ok(p) => {
                    &&& p.0 <= (**table).num_blocks_spec()
                    &&& p.1.inv()
                    &&& ((p.0 as int) < (**table).num_blocks_spec() ==> p.1.blk().entries() == (
                    **table).block_entries_at(p.0 as int))
                    &&& ((p.0 as int) == (**table).num_blocks_spec() ==> !p.1.valid() && lex_lt(
                        (**table).last_key@,
                        key@,
                    ))
                    &&& ((p.0 as int) < (**table).num_blocks_spec() ==> p.1.valid())
                    &&& (p.1.valid() ==> !lex_lt(p.1.blk().key_at(p.1.pos()), key@))
                    &&& (forall|j: int, u: int|
                        0 <= j < p.0 && 0 <= u < (**table).block_entries_at(j).len() ==> lex_lt(
                            (#[trigger] (**table).block_entries_at(j)[u]).0,
                            key@,
                        ))
                    &&& (p.1.valid() ==> forall|u: int|
                        0 <= u < p.1.pos() ==> lex_lt(#[trigger] p.1.blk().key_at(u), key@))
                },
                Err(_) => false,
            },
    {
        let block_index = table.find_block_idx(key);
        proof {
            assert((**table).block_ok(block_index as int));
        }
        let block = table.read_block_cache(cache, block_index)?;
        let block_iterator = BlockIterator::create_and_seek_to_key(block, key);
        if block_iterator.is_valid() {
            proof {
                if block_index > 0 {
                    lemma_blocks_before_key(&**table, block_index as int, key@);
                }
            }
            return Ok((block_index, block_iterator));
        }
        proof {
            let es = (**table).block_entries_at(block_index as int);
            assert((**table).block_ok(block_index as int));
            assert(es.len() == block_iterator.num());
            assert(block_iterator.pos() == block_iterator.num());
            assert(lex_lt(block_iterator.blk().key_at(block_iterator.num() - 1), key@));
            assert(es[es.len() - 1].0 == block_iterator.blk().key_at(block_iterator.num() - 1));
            assert(lex_lt(es[es.len() - 1].0, key@));
        }
        Self::seek_past_block(table, cache, block_index, block_iterator, key)
    }

    /// The key fell past the last entry of the block that should own it:
    /// continue at the first entry of the next block, or run off the table.
    #[verifier::rlimit(100)]
    fn seek_past_block(
        table: &Arc<SsTable>,
        cache: &mut BlockCache,
        r: usize,
        spent: BlockIterator,
        key: &[u8],
    ) -> (res: Result<(usize, BlockIterator), Error>)
        requires
            (**table).wf(),
            (**table).cache_ok(*old(cache)),
            (r as int) < (**table).num_blocks_spec(),
            spent.inv(),
            !spent.valid(),
            ({
                let es = (**table).block_entries_at(r as int);
                es.len() > 0 && lex_lt(es[es.len() - 1].0, key@)
            }),
            forall|j: int|
                r < j < (**table).num_blocks_spec() ==> lex_lt(
                    key@,
                    (#[trigger] (**table).block_meta@[j]).first_key@,
                ),
        ensures
            (**table).cache_ok(*final(cache)),
            match res {
                Ok(p) => {
                    &&& p.0 <= (**table).num_blocks_spec()
                    &&& p.1.inv()
                    &&& ((p.0 as int) < (**table).num_blocks_spec() ==> p.1.blk().entries() == (
                    **table).block_entries_at(p.0 as int))
                    &&& ((p.0 as int) == (**table).num_blocks_spec() ==> !p.1.valid() && lex_lt(
                        (**table).last_key@,
                        key@,
                    ))
                    &&& ((p.0 as int) < (**table).num_blocks_spec() ==> p.1.valid())
                    &&& (p.1.valid() ==> !lex_lt(p.1.blk().key_at(p.1.pos()), key@))
                    &&& (forall|j: int, u: int|
                        0 <= j < p.0 && 0 <= u < (**table).block_entries_at(j).len() ==> lex_lt(
                            (#[trigger] (**table).block_entries_at(j)[u]).0,
                            key@,
                        ))
                    &&& (p.1.valid() ==> forall|u: int|
                        0 <= u < p.1.pos() ==> lex_lt(#[trigger] p.1.blk().key_at(u), key@))
                },
                Err(_) => false,
            },
    {
        let n = table.num_of_blocks();
        let block_index = r + 1;
        proof {
            lemma_table_prefix_below(&**table, r as int, key@);
        }
        if block_index < n {
            proof {
                lemma_bump_lands_at_or_after(&**table, block_index as int, key@);
                assert((**table).block_ok(block_index as int));
            }
            let next_block = table.read_block_cache(cache, block_index)?;
            let block_iterator = BlockIterator::create_and_seek_to_first(next_block);
            Ok((block_index, block_iterator))
        } else {
            proof {
                lemma_runs_off_end(&**table, key@);
            }
            Ok((block_index, spent))
        }
    }

    /// Builds a table cursor standing on the table's first entry.
    pub fn create_and_seek_to_first(table: Arc<SsTable>, cache: &mut BlockCache) -> (r: Result<
        SsTableIterator,
        Error,
    >)
        requires
            (*table).wf(),
            (*table).cache_ok(*old(cache)),
        ensures
            (*table).cache_ok(*final(cache)),
            match r {
                Ok(it) => it.inv() && it.table == table && it.valid() && it.block_idx == 0
                    && it.block_iter.pos() == 0,
                Err(_) => false,
            },
    {
        let (block_idx, block_iterator) = Self::create_first_block_iterator_and_seek_to_first_pair(
            &table,
            cache,
        )?;
        Ok(SsTableIterator { table, block_iter: block_iterator, block_idx })
    }

    /// Repositions the cursor on the table's first entry.
    pub fn seek_to_first(&mut self, cache: &mut BlockCache) -> (r: Result<(), Error>)
        requires
            old(self).tbl().wf(),
            old(self).tbl().cache_ok(*old(cache)),
        ensures
            final(self).tbl().cache_ok(*final(cache)),
            final(self).table == old(self).table,
            match r {
                Ok(_) => final(self).inv() && final(self).valid() && final(self).block_idx == 0
                    && final(self).block_iter.pos() == 0,
                Err(_) => false,
            },
    {
        let (block_idx, block_iterator) = Self::create_first_block_iterator_and_seek_to_first_pair(
            &self.table,
            cache,
        )?;
        self.block_idx = block_idx;
        self.block_iter = block_iterator;
        Ok(())
    }

    /// Builds a table cursor standing on the first entry at or after `key`.
    #[verifier::rlimit(100)]
    pub fn create_and_seek_to_key(table: Arc<SsTable>, cache: &mut BlockCache, key: &[u8]) -> (r:
        Result<SsTableIterator, Error>)
        requires
            (*table).wf(),
            (*table).cache_ok(*old(cache)),
        ensures
            (*table).cache_ok(*final(cache)),
            match r {
                Ok(it) => {
                    &&& it.inv()
                    &&& it.table == table
                    &&& (it.valid() ==> !lex_lt(
                        it.block_iter.blk().key_at(it.block_iter.pos()),
                        key@,
                    ))
                    &&& (!it.valid() ==> lex_lt((*table).last_key@, key@))
                    &&& (forall|j: int, u: int|
                        0 <= j < it.block_idx && 0 <= u < (*table).block_entries_at(j).len()
                            ==> lex_lt((#[trigger] (*table).block_entries_at(j)[u]).0, key@))
                    &&& (it.valid() ==> forall|u: int|
                        0 <= u < it.block_iter.pos() ==> lex_lt(
                            #[trigger] it.block_iter.blk().key_at(u),
                            key@,
                        ))
                },
                Err(_) => false,
            },
    {
        let (block_idx, block_iterator) = Self::create_block_iterator_and_seek_to_key(
            &table,
            cache,
            key,
        )?;
        proof {
            if (block_idx as int) < (*table).num_blocks_spec() && !block_iterator.valid() {
                assert((*table).block_ok(block_idx as int));
            }
        }
        Ok(SsTableIterator { table, block_iter: block_iterator, block_idx })
    }

    /// Repositions the cursor on the first entry at or after `key`.
    #[verifier::rlimit(100)]
    pub fn seek_to_key(&mut self, cache: &mut BlockCache, key: &[u8]) -> (r: Result<(), Error>)
        requires
            old(self).tbl().wf(),
            old(self).tbl().cache_ok(*old(cache)),
        ensures
            final(self).tbl().cache_ok(*final(cache)),
            final(self).table == old(self).table,
            match r {
                Ok(_) => {
                    &&& final(self).inv()
                    &&& (final(self).valid() ==> !lex_lt(
                        final(self).block_iter.blk().key_at(final(self).block_iter.pos()),
                        key@,
                    ))
                    &&& (!final(self).valid() ==> lex_lt(old(self).tbl().last_key@, key@))
                    &&& (forall|j: int, u: int|
                        0 <= j < final(self).block_idx && 0 <= u < old(self).tbl().block_entries_at(
                            j,
                        ).len() ==> lex_lt(
                            (#[trigger] old(self).tbl().block_entries_at(j)[u]).0,
                            key@,
                        ))
                    &&& (final(self).valid() ==> forall|u: int|
                        0 <= u < final(self).block_iter.pos() ==> lex_lt(
                            #[trigger] final(self).block_iter.blk().key_at(u),
                            key@,
                        ))
                },
                Err(_) => false,
            },
    {
        let (blk_idx, blk_iter) = Self::create_block_iterator_and_seek_to_key(
            &self.table,
            cache,
            key,
        )?;
        proof {
            if (blk_idx as int) < self.tbl().num_blocks_spec() && !blk_iter.valid() {
                assert(self.tbl().block_ok(blk_idx as int));
            }
        }
        self.block_iter = blk_iter;
        self.block_idx = blk_idx;
        Ok(())
    }

    /// The key of the entry the cursor stands on.
    pub fn key(&self) -> (r: &[u8])
        requires
            self.inv(),
            self.valid(),
        ensures
            r@ == self.tbl().block_entries_at(self.block_idx as int)[self.block_iter.pos()].0,
    {
        self.block_iter.key()
    }

    /// The value of the entry the cursor stands on.
    pub fn value(&self) -> (r: &[u8])
        requires
            self.inv(),
            self.valid(),
        ensures
            r@ == self.tbl().block_entries_at(self.block_idx as int)[self.block_iter.pos()].1,
    {
        self.block_iter.value()
    }

    pub fn is_valid(&self) -> (r: bool)
        requires
            self.inv(),
        ensures
            r == self.valid(),
    {
        self.block_iter.is_valid()
    }

    /// Steps to the next entry, moving into the following block when the
    /// current one is exhausted; off the last block the cursor goes
    /// invalid.
    pub fn next(&mut self, cache: &mut BlockCache) -> (r: Result<(), Error>)
        requires
            old(self).inv(),
            old(self).tbl().cache_ok(*old(cache)),
        ensures
            final(self).table == old(self).table,
            final(self).tbl().cache_ok(*final(cache)),
            match r {
                Ok(_) => {
                    &&& final(self).inv()
                    &&& (old(self).valid() && old(self).block_iter.pos() + 1
                        < old(self).block_iter.num() ==> final(self).valid() && final(self).block_idx == old(self).block_idx && final(self).block_iter.pos() == old(self).block_iter.pos() + 1)
                    &&& (old(self).valid() && old(self).block_iter.pos() + 1 == old(self).block_iter.num() && old(self).block_idx + 1 < old(self).tbl().num_blocks_spec() ==> final(self).valid() && final(self).block_idx
                        == old(self).block_idx + 1 && final(self).block_iter.pos() == 0)
                    &&& (old(self).valid() && old(self).block_iter.pos() + 1 == old(self).block_iter.num() && old(self).block_idx + 1 == old(self).tbl().num_blocks_spec() ==> !final(self).valid())
                },
                Err(_) => false,
            },
    {
        if !self.block_iter.is_valid() {
            return Ok(());
        }
        let n = self.table.num_of_blocks();
        proof {
            assert(self.block_idx < n);
        }
        self.block_iter.next();
        if !self.block_iter.is_valid() {
            let next_idx = self.block_idx + 1;
            if next_idx < n {
                proof {
                    assert(self.tbl().block_ok(next_idx as int));
                }
                let block = self.table.read_block_cache(cache, next_idx)?;
                self.block_iter = BlockIterator::create_and_seek_to_first(block);
                self.block_idx = next_idx;
            } else {
                self.block_idx = next_idx;
            }
        }
        Ok(())
    }
}

} // verus!
