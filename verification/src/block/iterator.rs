use vstd::prelude::*;

verus! {

use std::sync::Arc;
use crate::block::{Block, entry_fits, entry_klen, entry_end, read_u16, SIZEOF_U16};
use crate::key::{lex_lt, key_cmp, copy_bytes, lemma_lex_trans};
use crate::block::lemma_entries_sorted;

/// A positional cursor over one block. While it is valid it addresses entry
/// `idx` and holds a copy of that entry's key; when it has run off the end
/// the key is empty.
pub struct BlockIterator {
    pub block: Arc<Block>,
    pub key: Vec<u8>,
    pub value_range: (usize, usize),
    pub idx: usize,
}

impl BlockIterator {
    pub open spec fn blk(&self) -> Block {
        *self.block
    }

    pub open spec fn num(&self) -> int {
        self.blk().num_entries()
    }

    pub open spec fn pos(&self) -> int {
        self.idx as int
    }

    pub open spec fn valid(&self) -> bool {
        self.idx < self.num()
    }

    pub open spec fn inv(&self) -> bool {
        &&& self.blk().wf()
        &&& self.idx <= self.num()
        &&& (self.key@.len() > 0 <==> self.idx < self.num())
        &&& self.idx < self.num() ==> {
            let off = self.blk().offsets@[self.idx as int] as int;
            &&& self.key@ == self.blk().key_at(self.idx as int)
            &&& self.value_range.0 as int == off + 4 + entry_klen(self.blk().data@, off)
            &&& self.value_range.1 as int == entry_end(self.blk().data@, off)
        }
    }

    fn new(block: Arc<Block>) -> (r: BlockIterator)
        ensures
            r.block == block,
            r.key@.len() == 0,
            r.idx == 0,
    {
        BlockIterator { block, value_range: (0, 0), idx: 0, key: Vec::new() }
    }

    /// Loads the key and value range of entry `idx`, which starts at `offset`.
    fn seek_to_offset(&mut self, offset: usize)
        requires
            old(self).blk().wf(),
            old(self).idx < old(self).num(),
            offset == old(self).blk().offsets@[old(self).idx as int],
        ensures
            final(self).block == old(self).block,
            final(self).idx == old(self).idx,
            final(self).inv(),
    {
        proof {
            assert(entry_fits(self.blk().data@, self.blk().offsets@, self.idx as int));
        }
        let data = self.block.data.as_slice();
        let key_len = read_u16(data, offset) as usize;
        let key = copy_bytes(vstd::slice::slice_subrange(data, offset + 2, offset + 2 + key_len));
        self.key = key;
        let value_len = read_u16(data, offset + 2 + key_len) as usize;
        let value_offset_begin = offset + SIZEOF_U16 + key_len + SIZEOF_U16;
        let value_offset_end = value_offset_begin + value_len;
        self.value_range = (value_offset_begin, value_offset_end);
        proof {
            assert(self.blk().key_at(self.idx as int).len() > 0);
            assert(self.key@ =~= self.blk().key_at(self.idx as int));
        }
    }

    /// Positions the cursor on entry `idx`, or past the end if there is no
    /// such entry.
    fn seek_to(&mut self, idx: usize)
        requires
            old(self).blk().wf(),
        ensures
            final(self).block == old(self).block,
            final(self).inv(),
            idx < old(self).num() ==> final(self).idx == idx,
            idx >= old(self).num() ==> final(self).idx == old(self).num(),
    {
        if idx >= self.block.offsets.len() {
            self.key = Vec::new();
            self.value_range = (0, 0);
            self.idx = self.block.offsets.len();
            return ;
        }
        let offset = self.block.offsets[idx];
        self.idx = idx;
        self.seek_to_offset(offset as usize);
        proof {
            assert(self.key@.len() > 0);
        }
    }

    pub fn is_valid(&self) -> (r: bool)
        requires
            self.inv(),
        ensures
            r == self.valid(),
    {
        !self.key.is_empty()
    }

    pub fn seek_to_first(&mut self)
        requires
            old(self).blk().wf(),
        ensures
            final(self).block == old(self).block,
            final(self).inv(),
            final(self).idx == 0 || final(self).num() == 0,
            final(self).valid() <==> final(self).num() > 0,
    {
        self.seek_to(0);
    }

    pub fn create_and_seek_to_first(block: Arc<Block>) -> (r: BlockIterator)
        requires
            (*block).wf(),
        ensures
            r.block == block,
            r.inv(),
            r.idx == 0 || r.num() == 0,
            r.valid() <==> r.num() > 0,
    {
        let mut iter = BlockIterator::new(block);
        iter.seek_to_first();
        iter
    }

    /// Lower-bound search: lands on the first entry whose key is at least
    /// `key`, or past the end if every stored key is smaller.
    pub fn seek_to_key(&mut self, key: &[u8])
        requires
            old(self).blk().wf(),
        ensures
            final(self).block == old(self).block,
            final(self).inv(),
            forall|i: int|
                0 <= i < final(self).pos() ==> lex_lt(#[trigger] final(self).blk().key_at(i), key@),
            final(self).valid() ==> !lex_lt(final(self).blk().key_at(final(self).pos()), key@),
            !final(self).valid() ==> final(self).pos() == final(self).num(),
    {
        let ghost b = self.blk();
        let n = self.block.offsets.len();
        let mut low: usize = 0;
        let mut high: usize = n;
        while low < high
            invariant
                low <= high <= n,
                n == b.num_entries(),
                self.blk() == b,
                b.wf(),
                forall|i: int| 0 <= i < low ==> lex_lt(#[trigger] b.key_at(i), key@),
                forall|i: int| high <= i < n ==> !lex_lt(#[trigger] b.key_at(i), key@),
            decreases high - low,
        {
            let mid = low + (high - low) / 2;
            proof {
                assert(entry_fits(b.data@, b.offsets@, mid as int));
            }
            let data = self.block.data.as_slice();
            let off = self.block.offsets[mid] as usize;
            let klen = read_u16(data, off) as usize;
            let mid_key = vstd::slice::slice_subrange(data, off + 2, off + 2 + klen);
            match key_cmp(mid_key, key) {
                core::cmp::Ordering::Less => {
                    proof {
                        assert forall|i: int| 0 <= i < mid + 1 implies lex_lt(
                            #[trigger] b.key_at(i),
                            key@,
                        ) by {
                            if i < mid {
                                lemma_entries_sorted(b.data@, b.offsets@, i, mid as int);
                                lemma_lex_trans(b.key_at(i), b.key_at(mid as int), key@);
                            }
                        }
                    }
                    low = mid + 1;
                },
                _ => {
                    proof {
                        assert forall|i: int| mid <= i < n implies !lex_lt(
                            #[trigger] b.key_at(i),
                            key@,
                        ) by {
                            if i > mid {
                                lemma_entries_sorted(b.data@, b.offsets@, mid as int, i);
                                if lex_lt(b.key_at(i), key@) {
                                    lemma_lex_trans(b.key_at(mid as int), b.key_at(i), key@);
                                }
                            }
                        }
                    }
                    high = mid;
                },
            }
        }
        self.seek_to(low);
    }

    pub fn create_and_seek_to_key(block: Arc<Block>, key: &[u8]) -> (r: BlockIterator)
        requires
            (*block).wf(),
        ensures
            r.block == block,
            r.inv(),
            forall|i: int| 0 <= i < r.pos() ==> lex_lt(#[trigger] r.blk().key_at(i), key@),
            r.valid() ==> !lex_lt(r.blk().key_at(r.pos()), key@),
            !r.valid() ==> r.pos() == r.num(),
    {
        let mut iter = BlockIterator::new(block);
        iter.seek_to_key(key);
        iter
    }

    /// The key of the entry the cursor addresses.
    pub fn key(&self) -> (r: &[u8])
        requires
            self.inv(),
            self.valid(),
        ensures
            r@ == self.blk().key_at(self.pos()),
            r@.len() > 0,
    {
        self.key.as_slice()
    }

    /// The value of the entry the cursor addresses.
    pub fn value(&self) -> (r: &[u8])
        requires
            self.inv(),
            self.valid(),
        ensures
            r@ == self.blk().val_at(self.pos()),
    {
        proof {
            assert(entry_fits(self.blk().data@, self.blk().offsets@, self.idx as int));
        }
        vstd::slice::slice_subrange(
            self.block.data.as_slice(),
            self.value_range.0,
            self.value_range.1,
        )
    }

    /// Advances to the next entry; past the last entry the cursor becomes
    /// invalid and stays so.
    pub fn next(&mut self)
        requires
            old(self).inv(),
        ensures
            final(self).block == old(self).block,
            final(self).inv(),
            old(self).valid() ==> final(self).pos() == old(self).pos() + 1 || (!final(self).valid()
                && final(self).pos() == final(self).num()),
            old(self).valid() && old(self).pos() + 1 < old(self).num() ==> final(self).valid()
                && final(self).pos() == old(self).pos() + 1,
            !old(self).valid() ==> *final(self) == *old(self),
            final(self).valid() <==> old(self).pos() + 1 < old(self).num(),
    {
        if self.key.is_empty() {
            return ;
        }
        let next_idx = self.idx + 1;
        self.seek_to(next_idx);
    }
}

} // verus!
