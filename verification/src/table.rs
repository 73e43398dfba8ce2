use vstd::prelude::*;

pub mod builder;
pub mod iterator;

verus! {

use std::sync::Arc;
use crate::Error;
use crate::block::{
    Block,
    recover_block,
    entries_wf,
    parsed_entries,
    read_u16,
    put_u16,
    push_bytes,
    u16_bytes,
    u16_at,
    lemma_entries_sorted,
};
use crate::key::{lex_lt, key_cmp, copy_bytes, lemma_lex_trans, lemma_lex_cmp_eq};
use crate::lsm_storage::{BlockCache, cache_view};

/// The big-endian 32-bit integer stored at position `i`.
pub open spec fn u32_at(s: Seq<u8>, i: int) -> int {
    s[i] * 0x1000000 + s[i + 1] * 0x10000 + s[i + 2] * 0x100 + s[i + 3]
}

/// The four big-endian bytes of a 32-bit integer.
pub open spec fn u32_bytes(x: int) -> Seq<u8> {
    seq![
        (x / 0x1000000 % 0x100) as u8,
        (x / 0x10000 % 0x100) as u8,
        (x / 0x100 % 0x100) as u8,
        (x % 0x100) as u8,
    ]
}

/// Reads the 32-bit big-endian integer at position `i`.
pub fn read_u32(s: &[u8], i: usize) -> (r: u32)
    requires
        i + 4 <= s@.len(),
    ensures
        r as int == u32_at(s@, i as int),
{
    let b0 = s[i] as u32;
    let b1 = s[i + 1] as u32;
    let b2 = s[i + 2] as u32;
    let b3 = s[i + 3] as u32;
    b0 * 0x1000000 + b1 * 0x10000 + b2 * 0x100 + b3
}

/// Appends a 32-bit integer, big-endian.
pub fn put_u32(buf: &mut Vec<u8>, x: u32)
    ensures
        final(buf)@ == old(buf)@ + u32_bytes(x as int),
{
    buf.push((x / 0x1000000 % 0x100) as u8);
    buf.push((x / 0x10000 % 0x100) as u8);
    buf.push((x / 0x100 % 0x100) as u8);
    buf.push((x % 0x100) as u8);
    proof {
        assert(buf@ =~= old(buf)@ + u32_bytes(x as int));
    }
}

/// The bytes a 16-bit read came from are its serialized form.
pub proof fn lemma_u16_bytes_of_at(s: Seq<u8>, i: int)
    requires
        0 <= i,
        i + 2 <= s.len(),
    ensures
        u16_bytes(u16_at(s, i)) == s.subrange(i, i + 2),
{
    let x = u16_at(s, i);
    assert(x as int / 0x100 == s[i] && x as int % 0x100 == s[i + 1]) by (nonlinear_arith)
        requires
            x as int == s[i] * 0x100 + s[i + 1],
            s[i] < 0x100,
            s[i + 1] < 0x100,
    ;
    assert(u16_bytes(x) =~= s.subrange(i, i + 2));
}

/// The bytes a 32-bit read came from are its serialized form.
pub proof fn lemma_u32_bytes_of_at(s: Seq<u8>, i: int)
    requires
        0 <= i,
        i + 4 <= s.len(),
    ensures
        u32_bytes(u32_at(s, i)) == s.subrange(i, i + 4),
{
    let x = u32_at(s, i);
    assert(x / 0x1000000 % 0x100 == s[i] && x / 0x10000 % 0x100 == s[i + 1] && x / 0x100 % 0x100
        == s[i + 2] && x % 0x100 == s[i + 3]) by (nonlinear_arith)
        requires
            x == s[i] * 0x1000000 + s[i + 1] * 0x10000 + s[i + 2] * 0x100 + s[i + 3],
            s[i] < 0x100,
            s[i + 1] < 0x100,
            s[i + 2] < 0x100,
            s[i + 3] < 0x100,
    ;
    assert(u32_bytes(x) =~= s.subrange(i, i + 4));
}

/// Reassembling the two bytes of a 16-bit integer gives it back.
pub proof fn lemma_u16_round(x: u16)
    ensures
        u16_at(u16_bytes(x), 0) == x,
{
    assert((x / 0x100) as u8 as int * 0x100 + (x % 0x100) as u8 as int == x as int);
}

/// Reassembling the four bytes of a 32-bit integer gives it back.
pub proof fn lemma_u32_round(x: int)
    requires
        0 <= x <= 0xFFFFFFFF,
    ensures
        u32_at(u32_bytes(x), 0) == x,
{
    assert((x / 0x1000000 % 0x100) * 0x1000000 + (x / 0x10000 % 0x100) * 0x10000 + (x / 0x100
        % 0x100) * 0x100 + (x % 0x100) == x) by (nonlinear_arith)
        requires
            0 <= x <= 0xFFFFFFFF,
    ;
    assert(u32_bytes(x)[0] as int == x / 0x1000000 % 0x100);
    assert(u32_bytes(x)[1] as int == x / 0x10000 % 0x100);
    assert(u32_bytes(x)[2] as int == x / 0x100 % 0x100);
    assert(u32_bytes(x)[3] as int == x % 0x100);
}

/// The serialized form of a summary array parses back to exactly that
/// array: nothing is lost and nothing is left over.
pub proof fn lemma_parse_of_metas_bytes(s: Seq<u8>, pos: int, ms: Seq<(int, Seq<u8>, Seq<u8>)>)
    requires
        0 <= pos <= s.len(),
        s.subrange(pos, s.len() as int) == metas_bytes(ms),
        forall|i: int|
            0 <= i < ms.len() ==> (#[trigger] ms[i]).1.len() <= 0xFFFF && ms[i].2.len() <= 0xFFFF
                && 0 <= ms[i].0 <= 0xFFFFFFFF,
    ensures
        parse_metas_from(s, pos) == Some(ms),
    decreases ms.len(),
{
    if ms.len() == 0 {
        assert(s.subrange(pos, s.len() as int).len() == 0);
        assert(parse_metas_from(s, pos) == Some(Seq::<(int, Seq<u8>, Seq<u8>)>::empty()));
        assert(ms =~= Seq::<(int, Seq<u8>, Seq<u8>)>::empty());
    } else {
        let m0 = ms[0];
        let fkl = m0.1.len() as int;
        let lkl = m0.2.len() as int;
        let step = 8 + fkl + lkl;
        let mb = meta_bytes(m0);
        assert(metas_bytes(ms) == mb + metas_bytes(ms.skip(1)));
        assert(mb.len() == step);
        assert forall|j: int| 0 <= j < s.len() - pos implies s[pos + j] == metas_bytes(ms)[j] by {
            assert(s.subrange(pos, s.len() as int)[j] == s[pos + j]);
        }
        assert(pos + step <= s.len());
        assert forall|j: int| 0 <= j < step implies s[pos + j] == mb[j] by {
            assert(metas_bytes(ms)[j] == mb[j]);
        }
        let fkb = u16_bytes(m0.1.len() as u16);
        let lkb = u16_bytes(m0.2.len() as u16);
        assert(mb =~= u32_bytes(m0.0) + fkb + m0.1 + lkb + m0.2);
        assert forall|j: int| 0 <= j < 4 implies mb[j] == u32_bytes(m0.0)[j] by {}
        assert(mb[4] == fkb[0]);
        assert(mb[5] == fkb[1]);
        assert forall|j: int| 0 <= j < fkl implies mb[6 + j] == m0.1[j] by {}
        assert(mb[6 + fkl] == lkb[0]);
        assert(mb[7 + fkl] == lkb[1]);
        assert forall|j: int| 0 <= j < lkl implies mb[8 + fkl + j] == m0.2[j] by {}
        lemma_u32_round(m0.0);
        assert(s[pos] == mb[0] && s[pos + 1] == mb[1] && s[pos + 2] == mb[2] && s[pos + 3] == mb[3]);
        assert(u32_at(s, pos) == u32_at(u32_bytes(m0.0), 0));
        assert(u32_at(s, pos) == m0.0);
        lemma_u16_round(m0.1.len() as u16);
        assert(u16_at(s, pos + 4) == u16_at(fkb, 0));
        assert(u16_at(s, pos + 4) == m0.1.len() as u16);
        assert(s.subrange(pos + 6, pos + 6 + fkl) =~= m0.1);
        lemma_u16_round(m0.2.len() as u16);
        assert(u16_at(s, pos + 6 + fkl) == u16_at(lkb, 0));
        assert(u16_at(s, pos + 6 + fkl) == m0.2.len() as u16);
        assert(s.subrange(pos + 8 + fkl, pos + 8 + fkl + lkl) =~= m0.2);
        assert(s.subrange(pos + step, s.len() as int) =~= metas_bytes(ms.skip(1))) by {
            assert(metas_bytes(ms) == meta_bytes(m0) + metas_bytes(ms.skip(1)));
            assert forall|j: int| 0 <= j < s.len() - pos - step implies s.subrange(
                pos + step,
                s.len() as int,
            )[j] == metas_bytes(ms.skip(1))[j] by {
                assert(s[pos + step + j] == metas_bytes(ms)[step + j]);
            }
        }
        assert forall|i: int|
            0 <= i < ms.skip(1).len() implies (#[trigger] ms.skip(1)[i]).1.len() <= 0xFFFF
            && ms.skip(1)[i].2.len() <= 0xFFFF && 0 <= ms.skip(1)[i].0 <= 0xFFFFFFFF by {
            assert(ms.skip(1)[i] == ms[i + 1]);
        }
        lemma_parse_of_metas_bytes(s, pos + step, ms.skip(1));
        assert(seq![(m0.0, s.subrange(pos + 6, pos + 6 + fkl), s.subrange(
            pos + 8 + fkl,
            pos + 8 + fkl + lkl,
        ))] + ms.skip(1) =~= ms);
    }
}

/// A successful parse pins the input: from `pos` on, the bytes are exactly
/// the serialized form of the records parsed.
pub proof fn lemma_parse_is_bytes(s: Seq<u8>, pos: int, ms: Seq<(int, Seq<u8>, Seq<u8>)>)
    requires
        0 <= pos <= s.len(),
        parse_metas_from(s, pos) == Some(ms),
    ensures
        s.subrange(pos, s.len() as int) == metas_bytes(ms),
    decreases s.len() - pos,
{
    if pos == s.len() {
        assert(s.subrange(pos, s.len() as int) =~= Seq::<u8>::empty());
    } else {
        let off = u32_at(s, pos);
        let fklen = u16_at(s, pos + 4) as int;
        let fk = s.subrange(pos + 6, pos + 6 + fklen);
        let lklen = u16_at(s, pos + 6 + fklen) as int;
        let lk = s.subrange(pos + 8 + fklen, pos + 8 + fklen + lklen);
        let step = 8 + fklen + lklen;
        let rest = parse_metas_from(s, pos + step) -> Some_0;
        assert(ms == seq![(off, fk, lk)] + rest);
        lemma_parse_is_bytes(s, pos + step, rest);
        lemma_u32_bytes_of_at(s, pos);
        lemma_u16_bytes_of_at(s, pos + 4);
        lemma_u16_bytes_of_at(s, pos + 6 + fklen);
        assert(ms[0] == (off, fk, lk));
        assert(meta_bytes(ms[0]) =~= s.subrange(pos, pos + step));
        assert(ms.skip(1) =~= rest);
        assert(metas_bytes(ms) == meta_bytes(ms[0]) + metas_bytes(rest));
        assert(s.subrange(pos, s.len() as int) =~= s.subrange(pos, pos + step) + s.subrange(
            pos + step,
            s.len() as int,
        ));
    }
}

/// Per-block summary inside a table: where the block starts in the file,
/// and the first and last key it holds.
#[derive(Debug)]
pub struct BlockMeta {
    pub offset: usize,
    pub first_key: Vec<u8>,
    pub last_key: Vec<u8>,
}

pub open spec fn meta_view(m: BlockMeta) -> (int, Seq<u8>, Seq<u8>) {
    (m.offset as int, m.first_key@, m.last_key@)
}

pub open spec fn metas_view(ms: Seq<BlockMeta>) -> Seq<(int, Seq<u8>, Seq<u8>)> {
    ms.map_values(|m: BlockMeta| meta_view(m))
}

/// The serialized form of one block summary.
pub open spec fn meta_bytes(m: (int, Seq<u8>, Seq<u8>)) -> Seq<u8> {
    u32_bytes(m.0) + u16_bytes(m.1.len() as u16) + m.1 + u16_bytes(m.2.len() as u16) + m.2
}

/// The serialized form of a summary array: the records back to back.
pub open spec fn metas_bytes(ms: Seq<(int, Seq<u8>, Seq<u8>)>) -> Seq<u8>
    decreases ms.len(),
{
    if ms.len() == 0 {
        Seq::empty()
    } else {
        meta_bytes(ms[0]) + metas_bytes(ms.skip(1))
    }
}

/// Parses summary records from position `pos` to the end of `s`; nothing
/// may be left over.
pub open spec fn parse_metas_from(s: Seq<u8>, pos: int) -> Option<Seq<(int, Seq<u8>, Seq<u8>)>>
    decreases s.len() - pos,
{
    if pos == s.len() {
        Some(Seq::empty())
    } else if pos < 0 || pos + 8 > s.len() {
        None
    } else {
        let off = u32_at(s, pos);
        let fklen = u16_at(s, pos + 4) as int;
        if pos + 8 + fklen > s.len() {
            None
        } else {
            let fk = s.subrange(pos + 6, pos + 6 + fklen);
            let lklen = u16_at(s, pos + 6 + fklen) as int;
            if pos + 8 + fklen + lklen > s.len() {
                None
            } else {
                let lk = s.subrange(pos + 8 + fklen, pos + 8 + fklen + lklen);
                match parse_metas_from(s, pos + 8 + fklen + lklen) {
                    Some(rest) => Some(seq![(off, fk, lk)] + rest),
                    None => None,
                }
            }
        }
    }
}

impl BlockMeta {
    /// Serializes the summary array onto `buf`: for each block its offset,
    /// then its first and last key, each length-prefixed.
    pub fn encode_block_meta(block_meta: &Vec<BlockMeta>, buf: &mut Vec<u8>)
        requires
            forall|i: int|
                0 <= i < block_meta@.len() ==> {
                    let m = #[trigger] block_meta@[i];
                    m.offset <= 0xFFFFFFFF && m.first_key@.len() <= 0xFFFF && m.last_key@.len()
                        <= 0xFFFF
                },
        ensures
            final(buf)@ == old(buf)@ + metas_bytes(metas_view(block_meta@)),
    {
        let n = block_meta.len();
        let mut i: usize = 0;
        while i < n
            invariant
                i <= n,
                n == block_meta@.len(),
                forall|j: int|
                    0 <= j < block_meta@.len() ==> {
                        let m = #[trigger] block_meta@[j];
                        m.offset <= 0xFFFFFFFF && m.first_key@.len() <= 0xFFFF && m.last_key@.len()
                            <= 0xFFFF
                    },
                buf@ == old(buf)@ + metas_bytes(metas_view(block_meta@.take(i as int))),
            decreases n - i,
        {
            let ghost pre = buf@;
            let meta = &block_meta[i];
            put_u32(buf, meta.offset as u32);
            put_u16(buf, meta.first_key.len() as u16);
            push_bytes(buf, meta.first_key.as_slice());
            put_u16(buf, meta.last_key.len() as u16);
            push_bytes(buf, meta.last_key.as_slice());
            proof {
                assert(buf@ =~= pre + meta_bytes(meta_view(block_meta@[i as int])));
                lemma_metas_bytes_snoc(metas_view(block_meta@.take(i + 1)));
                assert(metas_view(block_meta@.take(i + 1)).drop_last() =~= metas_view(
                    block_meta@.take(i as int),
                ));
                assert(buf@ =~= old(buf)@ + metas_bytes(metas_view(block_meta@.take(i + 1))));
            }
            i = i + 1;
        }
        proof {
            assert(block_meta@.take(n as int) =~= block_meta@);
        }
    }

    /// Parses a summary array, rejecting a section with trailing or
    /// truncated bytes.
    pub fn decode_block_meta(buf: &[u8]) -> (r: Result<Vec<BlockMeta>, Error>)
        ensures
            match r {
                Ok(ms) => parse_metas_from(buf@, 0) == Some(metas_view(ms@)),
                Err(e) => e == Error::Format && parse_metas_from(buf@, 0) is None,
            },
    {
        let len = buf.len();
        let mut out: Vec<BlockMeta> = Vec::new();
        let mut pos: usize = 0;
        while pos < len
            invariant
                pos <= len,
                len == buf@.len(),
                match parse_metas_from(buf@, pos as int) {
                    Some(rest) => parse_metas_from(buf@, 0) == Some(metas_view(out@) + rest),
                    None => parse_metas_from(buf@, 0) is None,
                },
            decreases len - pos,
        {
            let remaining = len - pos;
            if remaining < 8 {
                return Err(Error::Format);
            }
            let offset = read_u32(buf, pos) as usize;
            let fklen = read_u16(buf, pos + 4) as usize;
            if fklen > remaining - 8 {
                return Err(Error::Format);
            }
            let first_key = copy_bytes(vstd::slice::slice_subrange(buf, pos + 6, pos + 6 + fklen));
            let lklen = read_u16(buf, pos + 6 + fklen) as usize;
            if lklen > remaining - 8 - fklen {
                return Err(Error::Format);
            }
            let last_key = copy_bytes(
                vstd::slice::slice_subrange(buf, pos + 8 + fklen, pos + 8 + fklen + lklen),
            );
            let ghost prev_out = out@;
            let ghost prev_pos = pos as int;
            out.push(BlockMeta { offset, first_key, last_key });
            pos = pos + 8 + fklen + lklen;
            proof {
                assert(metas_view(out@) =~= metas_view(prev_out).push(
                    meta_view(out@[out@.len() - 1]),
                ));
                match parse_metas_from(buf@, pos as int) {
                    Some(rest) => {
                        assert(parse_metas_from(buf@, prev_pos) == Some(
                            seq![meta_view(out@[out@.len() - 1])] + rest,
                        ));
                        assert(metas_view(prev_out) + (seq![meta_view(out@[out@.len() - 1])]
                            + rest) =~= metas_view(out@) + rest);
                    },
                    None => {
                        assert(parse_metas_from(buf@, prev_pos) is None);
                    },
                }
            }
        }
        proof {
            assert(parse_metas_from(buf@, len as int) == Some(Seq::<(int, Seq<u8>, Seq<u8>)>::empty()));
            assert(metas_view(out@) + Seq::<(int, Seq<u8>, Seq<u8>)>::empty() =~= metas_view(out@));
        }
        Ok(out)
    }
}

/// Peeling the last record off a serialized summary array.
pub proof fn lemma_metas_bytes_snoc(ms: Seq<(int, Seq<u8>, Seq<u8>)>)
    requires
        ms.len() > 0,
    ensures
        metas_bytes(ms) == metas_bytes(ms.drop_last()) + meta_bytes(ms.last()),
    decreases ms.len(),
{
    if ms.len() == 1 {
        assert(ms.drop_last() =~= Seq::<(int, Seq<u8>, Seq<u8>)>::empty());
        assert(metas_bytes(ms.drop_last()) =~= Seq::<u8>::empty());
        assert(ms.skip(1) =~= Seq::<(int, Seq<u8>, Seq<u8>)>::empty());
        assert(metas_bytes(ms) =~= meta_bytes(ms[0]) + metas_bytes(ms.skip(1)));
        assert(metas_bytes(ms) =~= metas_bytes(ms.drop_last()) + meta_bytes(ms.last()));
    } else {
        lemma_metas_bytes_snoc(ms.skip(1));
        assert(ms.skip(1).drop_last() =~= ms.drop_last().skip(1));
        assert(ms.skip(1).last() == ms.last());
        assert(ms.drop_last()[0] == ms[0]);
        assert(metas_bytes(ms.drop_last()) == meta_bytes(ms[0]) + metas_bytes(
            ms.drop_last().skip(1),
        ));
        assert(metas_bytes(ms) =~= metas_bytes(ms.drop_last()) + meta_bytes(ms.last()));
    }
}

/// An immutable sorted table: the on-disk image plus the decoded block
/// summaries and the cached first and last key of the whole table.
#[derive(Debug)]
pub struct SsTable {
    pub bytes: Vec<u8>,
    pub block_meta: Vec<BlockMeta>,
    pub block_meta_offset: usize,
    pub id: usize,
    pub first_key: Vec<u8>,
    pub last_key: Vec<u8>,
}

impl SsTable {
    pub open spec fn num_blocks_spec(&self) -> int {
        self.block_meta@.len() as int
    }

    /// One past the last byte of block `i` in the image.
    pub open spec fn block_end(&self, i: int) -> int {
        if i + 1 < self.num_blocks_spec() {
            self.block_meta@[i + 1].offset as int
        } else {
            self.block_meta_offset as int
        }
    }

    /// The raw bytes of block `i`.
    pub open spec fn block_region(&self, i: int) -> Seq<u8> {
        self.bytes@.subrange(self.block_meta@[i].offset as int, self.block_end(i))
    }

    /// The entries block `i` holds.
    pub open spec fn block_entries_at(&self, i: int) -> Seq<(Seq<u8>, Seq<u8>)> {
        let p = recover_block(self.block_region(i)) -> Some_0;
        parsed_entries(p.0, p.1)
    }

    /// Block `i` is laid out inside the image, decodes to a non-empty
    /// well-formed block, and its summary matches its contents.
    pub open spec fn block_ok(&self, i: int) -> bool {
        let m = self.block_meta@[i];
        &&& m.offset as int <= self.block_end(i)
        &&& self.block_end(i) <= self.block_meta_offset as int
        &&& self.block_meta_offset as int <= self.bytes@.len()
        &&& recover_block(self.block_region(i)) is Some
        &&& entries_wf(
            recover_block(self.block_region(i)) -> Some_0.0,
            recover_block(self.block_region(i)) -> Some_0.1,
        )
        &&& self.block_entries_at(i).len() > 0
        &&& m.first_key@ == self.block_entries_at(i)[0].0
        &&& m.last_key@ == self.block_entries_at(i)[self.block_entries_at(i).len() - 1].0
        &&& m.offset <= 0xFFFFFFFF
        &&& m.first_key@.len() <= 0xFFFF
        &&& m.last_key@.len() <= 0xFFFF
        &&& m.first_key@.len() > 0
    }

    /// The table invariant: every block is sound, consecutive key ranges
    /// are disjoint and ascending, and the image ends with the serialized
    /// summaries and the 4-byte footer pointing at them.
    pub open spec fn wf(&self) -> bool {
        &&& self.block_meta@.len() > 0
        &&& self.block_meta@[0].offset == 0
        &&& forall|i: int| 0 <= i < self.num_blocks_spec() ==> #[trigger] self.block_ok(i)
        &&& forall|i: int|
            0 <= i < self.num_blocks_spec() - 1 ==> lex_lt(
                (#[trigger] self.block_meta@[i]).last_key@,
                self.block_meta@[i + 1].first_key@,
            )
        &&& self.block_meta_offset <= 0xFFFFFFFF
        &&& self.bytes@.len() == self.block_meta_offset + metas_bytes(
            metas_view(self.block_meta@),
        ).len() + 4
        &&& self.bytes@.subrange(
            self.block_meta_offset as int,
            self.bytes@.len() - 4,
        ) == metas_bytes(metas_view(self.block_meta@))
        &&& self.bytes@.subrange(self.bytes@.len() - 4, self.bytes@.len() as int) == u32_bytes(
            self.block_meta_offset as int,
        )
        &&& self.first_key@ == self.block_meta@[0].first_key@
        &&& self.last_key@ == self.block_meta@[self.block_meta@.len() - 1].last_key@
    }

    /// In a well-formed table the first keys of the blocks are strictly
    /// ascending between any two positions.
    pub proof fn lemma_first_keys_sorted(&self, i: int, j: int)
        requires
            self.wf(),
            0 <= i < j < self.num_blocks_spec(),
        ensures
            lex_lt(self.block_meta@[i].first_key@, self.block_meta@[j].first_key@),
        decreases j - i,
    {
        if j > i + 1 {
            self.lemma_first_keys_sorted(i, j - 1);
            self.lemma_fk_adjacent(j - 1);
            lemma_lex_trans(
                self.block_meta@[i].first_key@,
                self.block_meta@[j - 1].first_key@,
                self.block_meta@[j].first_key@,
            );
        } else {
            self.lemma_fk_adjacent(i);
        }
    }

    /// A block's first key comes before the next block's first key.
    pub proof fn lemma_fk_adjacent(&self, i: int)
        requires
            self.wf(),
            0 <= i < self.num_blocks_spec() - 1,
        ensures
            lex_lt(self.block_meta@[i].first_key@, self.block_meta@[i + 1].first_key@),
    {
        assert(self.block_ok(i));
        let es = self.block_entries_at(i);
        let p = recover_block(self.block_region(i)) -> Some_0;
        if es.len() > 1 {
            lemma_entries_sorted(p.0, p.1, 0, es.len() - 1);
            lemma_lex_trans(es[0].0, es[es.len() - 1].0, self.block_meta@[i + 1].first_key@);
        }
    }

    pub fn num_of_blocks(&self) -> (r: usize)
        ensures
            r == self.num_blocks_spec(),
    {
        self.block_meta.len()
    }

    /// The index of the last block whose first key is at or before `key`,
    /// or 0 when `key` comes before every block.
    pub fn find_block_idx(&self, key: &[u8]) -> (r: usize)
        requires
            self.wf(),
        ensures
            r < self.num_blocks_spec(),
            forall|j: int|
                r < j < self.num_blocks_spec() ==> lex_lt(
                    key@,
                    (#[trigger] self.block_meta@[j]).first_key@,
                ),
            r > 0 ==> !lex_lt(key@, self.block_meta@[r as int].first_key@),
    {
        let n = self.block_meta.len();
        let mut low: usize = 0;
        let mut high: usize = n;
        while low < high
            invariant
                low <= high <= n,
                n == self.block_meta@.len(),
                self.wf(),
                forall|j: int|
                    0 <= j < low ==> !lex_lt(key@, (#[trigger] self.block_meta@[j]).first_key@),
                forall|j: int|
                    high <= j < n ==> lex_lt(key@, (#[trigger] self.block_meta@[j]).first_key@),
            decreases high - low,
        {
            let mid = low + (high - low) / 2;
            let fk = self.block_meta[mid].first_key.as_slice();
            if matches!(key_cmp(key, fk), core::cmp::Ordering::Less) {
                proof {
                    assert forall|j: int|
                        mid <= j < n implies lex_lt(
                        key@,
                        (#[trigger] self.block_meta@[j]).first_key@,
                    ) by {
                        if j > mid {
                            self.lemma_first_keys_sorted(mid as int, j);
                            lemma_lex_trans(key@, self.block_meta@[mid as int].first_key@, self.block_meta@[j].first_key@);
                        }
                    }
                }
                high = mid;
            } else {
                proof {
                    lemma_lex_cmp_eq(key@, self.block_meta@[mid as int].first_key@);
                    assert forall|j: int|
                        0 <= j < mid + 1 implies !lex_lt(
                        key@,
                        (#[trigger] self.block_meta@[j]).first_key@,
                    ) by {
                        if j < mid {
                            self.lemma_first_keys_sorted(j, mid as int);
                            if lex_lt(key@, self.block_meta@[j].first_key@) {
                                lemma_lex_trans(key@, self.block_meta@[j].first_key@, self.block_meta@[mid as int].first_key@);
                            }
                        }
                    }
                }
                low = mid + 1;
            }
        }
        if low == 0 {
            0
        } else {
            low - 1
        }
    }

    /// Reads block `idx` straight from the image and decodes it.
    pub fn read_block(&self, idx: usize) -> (r: Result<Arc<Block>, Error>)
        requires
            self.wf(),
            idx < self.num_blocks_spec(),
        ensures
            match r {
                Ok(b) => (*b).wf() && (*b).entries() == self.block_entries_at(idx as int),
                Err(_) => false,
            },
    {
        proof {
            assert(self.block_ok(idx as int));
        }
        let n = self.block_meta.len();
        let offset = self.block_meta[idx].offset;
        let next_block_offset = if idx + 1 < n {
            self.block_meta[idx + 1].offset
        } else {
            self.block_meta_offset
        };
        let block_data = vstd::slice::slice_subrange(self.bytes.as_slice(), offset, next_block_offset);
        match Block::decode(block_data) {
            Ok(b) => Ok(Arc::new(b)),
            Err(_) => {
                proof {
                    assert(false);
                }
                Err(Error::Format)
            },
        }
    }

    /// The cache holds, under this table's id, only truthful copies of this
    /// table's blocks.
    pub open spec fn cache_ok(&self, c: BlockCache) -> bool {
        forall|k: (int, int)|
            #[trigger] cache_view(c).contains_key(k) && k.0 == self.id as int ==> 0 <= k.1
                < self.num_blocks_spec() && cache_view(c)[k] == self.block_entries_at(k.1)
    }

    /// Reads block `idx` through the shared cache: a hit skips the decode,
    /// a miss decodes and fills the cache. Either way the caller gets the
    /// true block.
    pub fn read_block_cache(&self, cache: &mut BlockCache, idx: usize) -> (r: Result<
        Arc<Block>,
        Error,
    >)
        requires
            self.wf(),
            idx < self.num_blocks_spec(),
            self.cache_ok(*old(cache)),
        ensures
            self.cache_ok(*final(cache)),
            forall|k: (int, int)|
                cache_view(*final(cache)).contains_key(k) ==> (k == (self.id as int, idx as int)
                    && cache_view(*final(cache))[k] == self.block_entries_at(idx as int)) || (
                cache_view(*old(cache)).contains_key(k) && cache_view(*final(cache))[k]
                    == cache_view(*old(cache))[k]),
            match r {
                Ok(b) => (*b).wf() && (*b).entries() == self.block_entries_at(idx as int),
                Err(_) => false,
            },
    {
        let ghost pre = cache_view(*cache);
        match cache.get(self.id, idx) {
            Some(b) => {
                proof {
                    assert forall|k: (int, int)|
                        #[trigger] cache_view(*cache).contains_key(k) && k.0 == self.id as int
                        implies 0 <= k.1 < self.num_blocks_spec() && cache_view(*cache)[k]
                        == self.block_entries_at(k.1) by {
                        assert(cache_view(*old(cache)).contains_key(k));
                        assert(cache_view(*cache)[k] == cache_view(*old(cache))[k]);
                    }
                }
                Ok(b)
            },
            None => {
                let b = match self.read_block(idx) {
                    Ok(b) => b,
                    Err(e) => {
                        proof {
                            assert(false);
                        }
                        return Err(e);
                    },
                };
                let ghost mid = cache_view(*cache);
                cache.insert(self.id, idx, &b);
                proof {
                    assert forall|k: (int, int)|
                        #[trigger] cache_view(*cache).contains_key(k) && k.0 == self.id as int
                        implies 0 <= k.1 < self.num_blocks_spec() && cache_view(*cache)[k]
                        == self.block_entries_at(k.1) by {
                        if k != (self.id as int, idx as int) {
                            assert(mid.contains_key(k));
                            assert(cache_view(*old(cache)).contains_key(k));
                            assert(cache_view(*cache)[k] == mid[k]);
                            assert(mid[k] == cache_view(*old(cache))[k]);
                        }
                    }
                    assert forall|k: (int, int)|
                        cache_view(*cache).contains_key(k) implies (k == (
                        self.id as int,
                        idx as int,
                    ) && cache_view(*cache)[k] == self.block_entries_at(idx as int)) || (
                    pre.contains_key(k) && cache_view(*cache)[k] == pre[k]) by {
                        if k != (self.id as int, idx as int) {
                            assert(mid.contains_key(k));
                        }
                    }
                }
                Ok(b)
            },
        }
    }

    /// A mock table carrying only its id, size and key range; its image is
    /// empty and it backs no reads.
    pub fn create_meta_only(id: usize, file_size: u64, first_key: Vec<u8>, last_key: Vec<u8>) -> (r:
        SsTable)
        ensures
            r.id == id,
            r.first_key == first_key,
            r.last_key == last_key,
            r.block_meta@.len() == 0,
            r.bytes@.len() == 0,
    {
        let _ = file_size;
        SsTable {
            bytes: Vec::new(),
            block_meta: Vec::new(),
            block_meta_offset: 0,
            id,
            first_key,
            last_key,
        }
    }

    /// Opens a serialized table: reads the footer, decodes the summary
    /// array, and checks every block against its summary.
    /// Opens a serialized table: reads the footer, decodes the summary
    /// array, and checks every block against its summary. An image is
    /// accepted exactly when it is the byte image of a well-formed table.
    pub fn open(bytes: Vec<u8>, id: usize) -> (r: Result<SsTable, Error>)
        ensures
            match r {
                Ok(t) => t.wf() && t.bytes@ == bytes@ && t.id == id,
                Err(e) => e == Error::Format && (forall|t2: SsTable|
                    t2.bytes@ == bytes@ ==> !(#[trigger] t2.wf())),
            },
    {
        let len = bytes.len();
        if len < 4 {
            proof {
                assert forall|t2: SsTable| t2.bytes@ == bytes@ implies !(#[trigger] t2.wf()) by {
                    if t2.wf() {
                        Self::lemma_wf_pins_layout(&t2, bytes@);
                    }
                }
            }
            return Err(Error::Format);
        }
        let meta_offset = read_u32(bytes.as_slice(), len - 4) as usize;
        if meta_offset > len - 4 {
            proof {
                assert forall|t2: SsTable| t2.bytes@ == bytes@ implies !(#[trigger] t2.wf()) by {
                    if t2.wf() {
                        Self::lemma_wf_pins_layout(&t2, bytes@);
                    }
                }
            }
            return Err(Error::Format);
        }
        let meta_section = vstd::slice::slice_subrange(bytes.as_slice(), meta_offset, len - 4);
        let ghost sec = meta_section@;
        let block_meta = match BlockMeta::decode_block_meta(meta_section) {
            Ok(ms) => ms,
            Err(_) => {
                proof {
                    assert forall|t2: SsTable| t2.bytes@ == bytes@ implies !(#[trigger] t2.wf())
                        by {
                        if t2.wf() {
                            Self::lemma_wf_pins_layout(&t2, bytes@);
                            assert(t2.block_meta_offset == meta_offset);
                        }
                    }
                }
                return Err(Error::Format);
            },
        };
        let n = block_meta.len();
        if n == 0 || block_meta[0].offset != 0 {
            proof {
                assert forall|t2: SsTable| t2.bytes@ == bytes@ implies !(#[trigger] t2.wf()) by {
                    if t2.wf() {
                        Self::lemma_wf_pins_layout(&t2, bytes@);
                        assert(t2.block_meta_offset == meta_offset);
                        assert(metas_view(t2.block_meta@) == metas_view(block_meta@));
                        assert(metas_view(t2.block_meta@).len() == t2.block_meta@.len());
                        assert(metas_view(block_meta@).len() == block_meta@.len());
                        assert(metas_view(t2.block_meta@)[0] == metas_view(block_meta@)[0]);
                    }
                }
            }
            return Err(Error::Format);
        }
        let first_key = copy_bytes(block_meta[0].first_key.as_slice());
        let last_key = copy_bytes(block_meta[n - 1].last_key.as_slice());
        let t = SsTable { bytes, block_meta, block_meta_offset: meta_offset, id, first_key, last_key };
        let mut i: usize = 0;
        while i < n
            invariant
                i <= n,
                n == t.block_meta@.len(),
                n > 0,
                t.bytes@ == bytes@,
                t.bytes@.len() >= 4,
                t.block_meta_offset + 4 <= t.bytes@.len(),
                u32_at(t.bytes@, t.bytes@.len() - 4) == t.block_meta_offset,
                parse_metas_from(
                    t.bytes@.subrange(t.block_meta_offset as int, t.bytes@.len() - 4),
                    0,
                ) == Some(metas_view(t.block_meta@)),
                forall|j: int| 0 <= j < i ==> #[trigger] t.block_ok(j),
                forall|j: int|
                    0 <= j < i && j < n - 1 ==> lex_lt(
                        (#[trigger] t.block_meta@[j]).last_key@,
                        t.block_meta@[j + 1].first_key@,
                    ),
            decreases n - i,
        {
            if !t.check_block_at(i) {
                proof {
                    assert forall|t2: SsTable| t2.bytes@ == bytes@ implies !(#[trigger] t2.wf())
                        by {
                        if t2.wf() {
                            Self::lemma_wf_pins_layout(&t2, bytes@);
                            assert(t2.block_meta_offset == t.block_meta_offset);
                            assert(metas_view(t2.block_meta@) == metas_view(t.block_meta@));
                            assert(metas_view(t2.block_meta@).len() == t2.block_meta@.len());
                            assert(metas_view(t.block_meta@).len() == t.block_meta@.len());
                            Self::lemma_block_ok_views(&t, &t2, i as int);
                            assert(t2.block_ok(i as int));
                            if (i as int) < n - 1 {
                                Self::lemma_block_ok_views(&t, &t2, i as int + 1);
                                assert(lex_lt(
                                    t2.block_meta@[i as int].last_key@,
                                    t2.block_meta@[i as int + 1].first_key@,
                                ));
                            }
                            assert(false);
                        }
                    }
                }
                return Err(Error::Format);
            }
            i = i + 1;
        }
        proof {
            lemma_u32_bytes_of_at(t.bytes@, len - 4);
            assert(t.bytes@.subrange(len - 4, len as int) == u32_bytes(meta_offset as int));
            lemma_parse_is_bytes(sec, 0, metas_view(t.block_meta@));
            assert(sec.subrange(0, sec.len() as int) =~= sec);
            assert(t.bytes@.subrange(meta_offset as int, len - 4) == metas_bytes(
                metas_view(t.block_meta@),
            ));
            assert(t.lengths_ok());
        }
        Ok(t)
    }

    /// The image's tail matches the decoded summaries and footer.
    pub open spec fn lengths_ok(&self) -> bool {
        &&& self.bytes@.len() == self.block_meta_offset + metas_bytes(
            metas_view(self.block_meta@),
        ).len() + 4
        &&& self.bytes@.subrange(
            self.block_meta_offset as int,
            self.bytes@.len() - 4,
        ) == metas_bytes(metas_view(self.block_meta@))
        &&& self.bytes@.subrange(self.bytes@.len() - 4, self.bytes@.len() as int) == u32_bytes(
            self.block_meta_offset as int,
        )
    }

    /// Block soundness is a fact about the byte image and the summary
    /// views alone: two tables that agree on those agree on it.
    proof fn lemma_block_ok_views(a: &SsTable, b: &SsTable, i: int)
        requires
            a.bytes@ == b.bytes@,
            metas_view(a.block_meta@) == metas_view(b.block_meta@),
            a.block_meta_offset == b.block_meta_offset,
            0 <= i < a.block_meta@.len(),
        ensures
            a.block_ok(i) == b.block_ok(i),
            a.block_meta@[i].last_key@ == b.block_meta@[i].last_key@,
            a.block_meta@[i].first_key@ == b.block_meta@[i].first_key@,
    {
        assert(metas_view(a.block_meta@).len() == a.block_meta@.len());
        assert(metas_view(b.block_meta@).len() == b.block_meta@.len());
        assert(a.block_meta@.len() == b.block_meta@.len());
        assert forall|j: int| 0 <= j < a.block_meta@.len() implies meta_view(
            #[trigger] a.block_meta@[j],
        ) == meta_view(b.block_meta@[j]) by {
            assert(metas_view(a.block_meta@)[j] == metas_view(b.block_meta@)[j]);
        }
        assert(a.block_end(i) == b.block_end(i));
        assert(a.block_region(i) == b.block_region(i));
    }

    /// A well-formed table determines the whole image layout: the footer
    /// holds its summary offset and the summary section parses back to its
    /// summaries.
    proof fn lemma_wf_pins_layout(t2: &SsTable, bytes: Seq<u8>)
        requires
            t2.wf(),
            t2.bytes@ == bytes,
        ensures
            bytes.len() >= 4,
            t2.block_meta_offset + 4 <= bytes.len(),
            u32_at(bytes, bytes.len() - 4) == t2.block_meta_offset,
            parse_metas_from(
                bytes.subrange(t2.block_meta_offset as int, bytes.len() - 4),
                0,
            ) == Some(metas_view(t2.block_meta@)),
    {
        let bmo = t2.block_meta_offset as int;
        lemma_u32_round(bmo);
        assert forall|j: int| 0 <= j < 4 implies bytes[bytes.len() - 4 + j] == u32_bytes(bmo)[j] by {
            assert(bytes.subrange(bytes.len() - 4, bytes.len() as int)[j] == bytes[bytes.len() - 4
                + j]);
        }
        assert(bytes[bytes.len() - 4] == u32_bytes(bmo)[0] && bytes[bytes.len() - 3] == u32_bytes(
            bmo,
        )[1] && bytes[bytes.len() - 2] == u32_bytes(bmo)[2] && bytes[bytes.len() - 1] == u32_bytes(
            bmo,
        )[3]);
        assert(u32_at(bytes, bytes.len() - 4) == u32_at(u32_bytes(bmo), 0));
        let sec = bytes.subrange(bmo, bytes.len() - 4);
        assert(sec == metas_bytes(metas_view(t2.block_meta@)));
        assert(sec.subrange(0, sec.len() as int) =~= sec);
        assert forall|j: int|
            0 <= j < metas_view(t2.block_meta@).len() implies (#[trigger] metas_view(
            t2.block_meta@,
        )[j]).1.len() <= 0xFFFF && metas_view(t2.block_meta@)[j].2.len() <= 0xFFFF && 0
            <= metas_view(t2.block_meta@)[j].0 <= 0xFFFFFFFF by {
            assert(t2.block_ok(j));
        }
        lemma_parse_of_metas_bytes(sec, 0, metas_view(t2.block_meta@));
    }

    /// Decides exactly whether block `i` of a candidate table is sound and
    /// ordered before its successor.
    #[verifier::rlimit(100)]
    fn check_block_at(&self, i: usize) -> (r: bool)
        requires
            i < self.num_blocks_spec(),
        ensures
            r == ({
                &&& self.block_ok(i as int)
                &&& ((i as int) < self.num_blocks_spec() - 1 ==> lex_lt(
                    self.block_meta@[i as int].last_key@,
                    self.block_meta@[i as int + 1].first_key@,
                ))
            }),
    {
        let n = self.block_meta.len();
        let off = self.block_meta[i].offset;
        let end = if i + 1 < n {
            self.block_meta[i + 1].offset
        } else {
            self.block_meta_offset
        };
        if off > end || end > self.block_meta_offset || self.block_meta_offset > self.bytes.len() {
            return false;
        }
        if self.block_meta[i].offset > 0xFFFFFFFF {
            return false;
        }
        let region = vstd::slice::slice_subrange(self.bytes.as_slice(), off, end);
        proof {
            assert(self.block_region(i as int) == region@);
        }
        let block = match Block::decode(region) {
            Ok(b) => b,
            Err(_) => {
                return false;
            },
        };
        if block.offsets.len() == 0 {
            return false;
        }
        let m = &self.block_meta[i];
        if m.first_key.len() > 0xFFFF || m.last_key.len() > 0xFFFF || m.first_key.len() == 0 {
            return false;
        }
        let iter0 = crate::block::iterator::BlockIterator::create_and_seek_to_first(Arc::new(block));
        let bk = iter0.key();
        proof {
            lemma_lex_cmp_eq(m.first_key@, iter0.blk().key_at(0));
        }
        if !matches!(key_cmp(m.first_key.as_slice(), bk), core::cmp::Ordering::Equal) {
            return false;
        }
        let nb = iter0.block.offsets.len();
        let last_off = iter0.block.offsets[nb - 1];
        proof {
            assert(crate::block::entry_fits(iter0.blk().data@, iter0.blk().offsets@, nb - 1));
        }
        let lk_len = read_u16(iter0.block.data.as_slice(), last_off as usize) as usize;
        let lk = vstd::slice::slice_subrange(
            iter0.block.data.as_slice(),
            last_off as usize + 2,
            last_off as usize + 2 + lk_len,
        );
        proof {
            lemma_lex_cmp_eq(m.last_key@, iter0.blk().key_at(nb - 1));
        }
        if !matches!(key_cmp(m.last_key.as_slice(), lk), core::cmp::Ordering::Equal) {
            return false;
        }
        if i + 1 < n {
            let nfk = self.block_meta[i + 1].first_key.as_slice();
            if !matches!(key_cmp(lk, nfk), core::cmp::Ordering::Less) {
                return false;
            }
        }
        true
    }
}

} // verus!
