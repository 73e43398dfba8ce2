use vstd::prelude::*;

verus! {

use crate::block::{
    BlockBuilder,
    entry_fits,
    block_bytes,
    recover_block,
    entries_wf,
    parsed_entries,
    push_bytes,
    lemma_recover_block_bytes,
    lemma_wf_data_len,
};
use crate::key::{lex_lt, copy_bytes};
use crate::table::{BlockMeta, SsTable, put_u32, metas_view, metas_bytes};

/// One past the last byte of finished block `i` inside the builder's data
/// section.
pub open spec fn built_block_end(d: Seq<u8>, ms: Seq<BlockMeta>, i: int) -> int {
    if i + 1 < ms.len() {
        ms[i + 1].offset as int
    } else {
        d.len() as int
    }
}

pub open spec fn built_region(d: Seq<u8>, ms: Seq<BlockMeta>, i: int) -> Seq<u8> {
    d.subrange(ms[i].offset as int, built_block_end(d, ms, i))
}

/// The entries of finished block `i`.
pub open spec fn built_entries(d: Seq<u8>, ms: Seq<BlockMeta>, i: int) -> Seq<(Seq<u8>, Seq<u8>)> {
    let p = recover_block(built_region(d, ms, i)) -> Some_0;
    parsed_entries(p.0, p.1)
}

/// Finished block `i` sits inside the data section, decodes to a
/// well-formed non-empty block, and its summary matches its contents.
pub open spec fn built_block_ok(d: Seq<u8>, ms: Seq<BlockMeta>, i: int) -> bool {
    let m = ms[i];
    &&& m.offset as int <= built_block_end(d, ms, i) <= d.len()
    &&& recover_block(built_region(d, ms, i)) is Some
    &&& entries_wf(
        recover_block(built_region(d, ms, i)) -> Some_0.0,
        recover_block(built_region(d, ms, i)) -> Some_0.1,
    )
    &&& built_entries(d, ms, i).len() > 0
    &&& m.first_key@ == built_entries(d, ms, i)[0].0
    &&& m.last_key@ == built_entries(d, ms, i)[built_entries(d, ms, i).len() - 1].0
    &&& m.offset <= 0xFFFFFFFF
    &&& m.first_key@.len() <= 0xFFFF
    &&& m.last_key@.len() <= 0xFFFF
    &&& m.first_key@.len() > 0
}

/// Streams sorted pairs into blocks and assembles the on-disk layout:
/// finished blocks in `data`, their summaries in `block_meta`, and the
/// block under construction in `builder`, its key range in `first_key`
/// and `last_key`.
pub struct SsTableBuilder {
    pub builder: BlockBuilder,
    pub first_key: Vec<u8>,
    pub last_key: Vec<u8>,
    pub data: Vec<u8>,
    pub block_meta: Vec<BlockMeta>,
    pub target_block_size: usize,
}

/// Appending one encoded block to the data section keeps every finished
/// block sound and adds the new one, with the given summary.
#[verifier::rlimit(100)]
pub proof fn lemma_seal(pre_d: Seq<u8>, pre_ms: Seq<BlockMeta>, m: BlockMeta, bd: Seq<u8>, bo: Seq<u16>)
    requires
        entries_wf(bd, bo),
        parsed_entries(bd, bo).len() > 0,
        m.offset as int == pre_d.len(),
        m.first_key@ == parsed_entries(bd, bo)[0].0,
        m.last_key@ == parsed_entries(bd, bo)[parsed_entries(bd, bo).len() - 1].0,
        pre_d.len() <= 0xFFF31000,
        forall|i: int| 0 <= i < pre_ms.len() ==> #[trigger] built_block_ok(pre_d, pre_ms, i),
    ensures
        forall|i: int|
            0 <= i < pre_ms.len() + 1 ==> #[trigger] built_block_ok(
                pre_d + block_bytes(bd, bo),
                pre_ms.push(m),
                i,
            ),
        forall|i: int|
            0 <= i < pre_ms.len() + 1 ==> #[trigger] built_entries(
                pre_d + block_bytes(bd, bo),
                pre_ms.push(m),
                i,
            ) == if i < pre_ms.len() {
                built_entries(pre_d, pre_ms, i)
            } else {
                parsed_entries(bd, bo)
            },
{
    let d2 = pre_d + block_bytes(bd, bo);
    let ms2 = pre_ms.push(m);
    let n = pre_ms.len() as int;
    lemma_wf_data_len(bd, bo);
    lemma_recover_block_bytes(bd, bo);
    assert(built_region(d2, ms2, n) =~= block_bytes(bd, bo));
    assert(built_entries(d2, ms2, n) == parsed_entries(bd, bo));
    assert(entry_fits(bd, bo, 0));
    assert(entry_fits(bd, bo, bo.len() - 1));
    assert(m.first_key@.len() <= 0xFFFF && m.first_key@.len() > 0);
    assert(m.last_key@.len() <= 0xFFFF);
    assert(built_block_ok(d2, ms2, n));
    assert forall|i: int| 0 <= i < n implies #[trigger] built_block_ok(d2, ms2, i)
        && built_entries(d2, ms2, i) == built_entries(pre_d, pre_ms, i) by {
        assert(built_block_ok(pre_d, pre_ms, i));
        assert(ms2[i] == pre_ms[i]);
        assert(built_block_end(d2, ms2, i) == built_block_end(pre_d, pre_ms, i));
        assert(built_region(d2, ms2, i) =~= built_region(pre_d, pre_ms, i));
    }
    assert forall|i: int| 0 <= i < n + 1 implies #[trigger] built_entries(d2, ms2, i) == (if i < n {
        built_entries(pre_d, pre_ms, i)
    } else {
        parsed_entries(bd, bo)
    }) by {
        if i < n {
            assert(built_block_ok(d2, ms2, i));
        }
    }
}

impl SsTableBuilder {
    pub open spec fn wf(&self) -> bool {
        &&& self.builder.wf()
        &&& self.builder.block_size == self.target_block_size
        &&& self.target_block_size <= 0xFFFF
        &&& (self.block_meta@.len() > 0 ==> self.block_meta@[0].offset == 0)
        &&& (self.block_meta@.len() == 0 ==> self.data@.len() == 0)
        &&& forall|i: int|
            0 <= i < self.block_meta@.len() ==> #[trigger] built_block_ok(
                self.data@,
                self.block_meta@,
                i,
            )
        &&& forall|i: int|
            0 <= i < self.block_meta@.len() - 1 ==> lex_lt(
                (#[trigger] self.block_meta@[i]).last_key@,
                self.block_meta@[i + 1].first_key@,
            )
        &&& (self.builder.entries().len() > 0 ==> {
            &&& self.first_key@ == self.builder.entries()[0].0
            &&& self.last_key@ == self.builder.entries()[self.builder.entries().len() - 1].0
            &&& (self.block_meta@.len() > 0 ==> lex_lt(
                self.block_meta@[self.block_meta@.len() - 1].last_key@,
                self.builder.entries()[0].0,
            ))
        })
    }

    /// A key may be added only strictly after every key taken so far.
    pub open spec fn admits_key(&self, key: Seq<u8>) -> bool {
        &&& (self.builder.entries().len() > 0 ==> lex_lt(self.builder.last_key(), key))
        &&& (self.builder.entries().len() == 0 && self.block_meta@.len() > 0 ==> lex_lt(
            self.block_meta@[self.block_meta@.len() - 1].last_key@,
            key,
        ))
    }

    pub fn new(target_block_size: usize) -> (r: SsTableBuilder)
        requires
            target_block_size <= 0xFFFF,
        ensures
            r.wf(),
            r.builder.entries().len() == 0,
            r.block_meta@.len() == 0,
            r.data@.len() == 0,
            r.target_block_size == target_block_size,
    {
        SsTableBuilder {
            builder: BlockBuilder::new(target_block_size),
            first_key: Vec::new(),
            last_key: Vec::new(),
            data: Vec::new(),
            block_meta: Vec::new(),
            target_block_size,
        }
    }

    /// Seals the block under construction: its bytes go to the end of the
    /// data section and its summary is recorded.
    #[verifier::rlimit(100)]
    fn finish_block(&mut self)
        requires
            old(self).wf(),
            old(self).builder.entries().len() > 0,
            old(self).data@.len() <= 0xFFF00000,
        ensures
            final(self).wf(),
            final(self).builder.entries().len() == 0,
            final(self).target_block_size == old(self).target_block_size,
            final(self).block_meta@.len() == old(self).block_meta@.len() + 1,
            forall|i: int|
                0 <= i < old(self).block_meta@.len() ==> final(self).block_meta@[i] == old(
                    self,
                ).block_meta@[i],
            final(self).block_meta@[old(self).block_meta@.len() as int].offset == old(
                self,
            ).data@.len(),
            final(self).block_meta@[old(self).block_meta@.len() as int].first_key@ == old(
                self,
            ).first_key@,
            final(self).block_meta@[old(self).block_meta@.len() as int].last_key@ == old(
                self,
            ).last_key@,
            forall|i: int|
                0 <= i < final(self).block_meta@.len() ==> built_entries(
                    final(self).data@,
                    final(self).block_meta@,
                    i,
                ) == if i < old(self).block_meta@.len() {
                    built_entries(old(self).data@, old(self).block_meta@, i)
                } else {
                    old(self).builder.entries()
                },
            final(self).data@.len() <= old(self).data@.len() + 0x60000,
    {
        let ghost pre = *self;
        proof {
            lemma_wf_data_len(self.builder.data@, self.builder.offsets@);
        }
        let mut taken = BlockBuilder::new(self.target_block_size);
        core::mem::swap(&mut self.builder, &mut taken);
        let block = taken.build();
        let ghost bd = block.data@;
        let ghost bo = block.offsets@;
        let encoded = block.encode();
        let offset = self.data.len();
        let mut first_key = Vec::new();
        core::mem::swap(&mut self.first_key, &mut first_key);
        let mut last_key = Vec::new();
        core::mem::swap(&mut self.last_key, &mut last_key);
        self.block_meta.push(BlockMeta { offset, first_key, last_key });
        push_bytes(&mut self.data, encoded.as_slice());
        proof {
            let d2 = self.data@;
            let ms2 = self.block_meta@;
            let n = pre.block_meta@.len() as int;
            let m = ms2[n];
            assert(d2 =~= pre.data@ + block_bytes(bd, bo));
            lemma_wf_data_len(bd, bo);
            assert(bd.len() <= 0x30004);
            assert(bo.len() <= 0xFFFF);
            assert(d2.len() == pre.data@.len() + bd.len() + 2 * bo.len() + 2);
            assert(ms2 =~= pre.block_meta@.push(m));
            lemma_seal(pre.data@, pre.block_meta@, m, bd, bo);
            assert forall|i: int| 0 <= i < ms2.len() - 1 implies lex_lt(
                (#[trigger] ms2[i]).last_key@,
                ms2[i + 1].first_key@,
            ) by {
                if i < n - 1 {
                    assert(pre.block_meta@[i] == ms2[i]);
                    assert(pre.block_meta@[i + 1] == ms2[i + 1]);
                } else {
                    assert(built_block_ok(pre.data@, pre.block_meta@, i));
                }
            }
        }
    }

    /// Routes the pair to the block under construction; when the block is
    /// full it is sealed first, and the pair opens a fresh block. An add
    /// always succeeds.
    pub fn add(&mut self, key: &[u8], value: &[u8])
        requires
            old(self).wf(),
            old(self).admits_key(key@),
            key@.len() > 0,
            key@.len() <= 0xFFFF,
            value@.len() <= 0xFFFF,
            old(self).data@.len() <= 0xFFF00000,
        ensures
            final(self).wf(),
            final(self).target_block_size == old(self).target_block_size,
            final(self).builder.entries().len() > 0,
            final(self).last_key@ == key@,
            final(self).admits_key_only_above(key@),
            if old(self).builder.accepts(key@, value@) {
                &&& final(self).block_meta@ == old(self).block_meta@
                &&& final(self).data@ == old(self).data@
                &&& final(self).builder.entries() == old(self).builder.entries().push(
                    (key@, value@),
                )
            } else {
                &&& final(self).block_meta@.len() == old(self).block_meta@.len() + 1
                &&& (forall|i: int|
                    0 <= i < final(self).block_meta@.len() ==> built_entries(
                        final(self).data@,
                        final(self).block_meta@,
                        i,
                    ) == if i < old(self).block_meta@.len() {
                        built_entries(old(self).data@, old(self).block_meta@, i)
                    } else {
                        old(self).builder.entries()
                    })
                &&& final(self).builder.entries() == seq![(key@, value@)]
            },
            final(self).data@.len() <= old(self).data@.len() + 0x60000,
    {
        if self.builder.is_empty() {
            self.first_key = copy_bytes(key);
        }
        if self.builder.add(key, value) {
            self.last_key = copy_bytes(key);
            return ;
        }
        self.finish_block();
        let accepted = self.builder.add(key, value);
        proof {
            assert(accepted);
        }
        self.first_key = copy_bytes(key);
        self.last_key = copy_bytes(key);
    }

    /// After adding `key`, only keys above it may follow.
    pub open spec fn admits_key_only_above(&self, key: Seq<u8>) -> bool {
        forall|k2: Seq<u8>| lex_lt(key, k2) ==> #[trigger] self.admits_key(k2)
    }

    /// Finalizes the table image: the last block is sealed, the summary
    /// array is appended, and the footer records where it starts.
    pub fn build(self, id: usize) -> (r: SsTable)
        requires
            self.wf(),
            self.builder.entries().len() > 0,
            self.data@.len() <= 0xFFF00000,
        ensures
            r.wf(),
            r.id == id,
            r.num_blocks_spec() == self.block_meta@.len() + 1,
            forall|i: int|
                0 <= i < r.num_blocks_spec() ==> r.block_entries_at(i) == if i
                    < self.block_meta@.len() {
                    built_entries(self.data@, self.block_meta@, i)
                } else {
                    self.builder.entries()
                },
    {
        let mut this = self;
        this.finish_block();
        let ghost sealed = this;
        let meta_offset = this.data.len();
        proof {
            assert forall|i: int| 0 <= i < this.block_meta@.len() implies {
                let m = #[trigger] this.block_meta@[i];
                m.offset <= 0xFFFFFFFF && m.first_key@.len() <= 0xFFFF && m.last_key@.len()
                    <= 0xFFFF
            } by {
                assert(built_block_ok(this.data@, this.block_meta@, i));
            }
        }
        BlockMeta::encode_block_meta(&this.block_meta, &mut this.data);
        put_u32(&mut this.data, meta_offset as u32);
        let n = this.block_meta.len();
        let first_key = copy_bytes(this.block_meta[0].first_key.as_slice());
        let last_key = copy_bytes(this.block_meta[n - 1].last_key.as_slice());
        let t = SsTable {
            bytes: this.data,
            block_meta: this.block_meta,
            block_meta_offset: meta_offset,
            id,
            first_key,
            last_key,
        };
        proof {
            let ms = t.block_meta@;
            assert forall|i: int| 0 <= i < ms.len() implies #[trigger] t.block_ok(i)
                && t.block_entries_at(i) == built_entries(sealed.data@, ms, i) by {
                assert(built_block_ok(sealed.data@, ms, i));
                assert(t.block_end(i) == built_block_end(sealed.data@, ms, i));
                assert(t.block_region(i) =~= built_region(sealed.data@, ms, i));
            }
            assert(t.bytes@.subrange(meta_offset as int, t.bytes@.len() - 4) =~= metas_bytes(
                metas_view(ms),
            ));
            assert(t.bytes@.subrange(t.bytes@.len() - 4, t.bytes@.len() as int)
                =~= crate::table::u32_bytes(meta_offset as int));
            assert(t.wf());
            assert forall|i: int| 0 <= i < t.num_blocks_spec() implies t.block_entries_at(i) == (
            if i < self.block_meta@.len() {
                built_entries(self.data@, self.block_meta@, i)
            } else {
                self.builder.entries()
            }) by {
                assert(t.block_ok(i));
                assert(t.block_entries_at(i) == built_entries(sealed.data@, sealed.block_meta@, i));
                assert(built_entries(sealed.data@, sealed.block_meta@, i) == if i
                    < self.block_meta@.len() {
                    built_entries(self.data@, self.block_meta@, i)
                } else {
                    self.builder.entries()
                });
            }
        }
        t
    }
}

} // verus!
