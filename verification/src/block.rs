use vstd::prelude::*;

pub mod iterator;

verus! {

use crate::key::{lex_lt, lemma_lex_trans, key_cmp, copy_bytes};
use crate::Error;

/// Width in bytes of the length and offset fields of the block format.
pub const SIZEOF_U16: usize = 2;

/// The big-endian 16-bit integer stored at position `i`.
pub open spec fn u16_at(s: Seq<u8>, i: int) -> u16 {
    (s[i] as int * 256 + s[i + 1] as int) as u16
}

/// The two big-endian bytes of a 16-bit integer.
pub open spec fn u16_bytes(x: u16) -> Seq<u8> {
    seq![(x / 256) as u8, (x % 256) as u8]
}

/// Byte length of the key of the entry that starts at `off`.
pub open spec fn entry_klen(d: Seq<u8>, off: int) -> int {
    u16_at(d, off) as int
}

/// Byte length of the value of the entry that starts at `off`.
pub open spec fn entry_vlen(d: Seq<u8>, off: int) -> int {
    u16_at(d, off + 2 + entry_klen(d, off)) as int
}

/// The key of the entry that starts at `off`.
pub open spec fn entry_key(d: Seq<u8>, off: int) -> Seq<u8> {
    d.subrange(off + 2, off + 2 + entry_klen(d, off))
}

/// The value of the entry that starts at `off`.
pub open spec fn entry_val(d: Seq<u8>, off: int) -> Seq<u8> {
    let k = entry_klen(d, off);
    d.subrange(off + 4 + k, off + 4 + k + entry_vlen(d, off))
}

/// One past the last byte of the entry that starts at `off`.
pub open spec fn entry_end(d: Seq<u8>, off: int) -> int {
    off + 4 + entry_klen(d, off) + entry_vlen(d, off)
}

/// The serialized form of one entry.
pub open spec fn entry_bytes(key: Seq<u8>, value: Seq<u8>) -> Seq<u8> {
    u16_bytes(key.len() as u16) + key + u16_bytes(value.len() as u16) + value
}

/// Entry `i` of the data section is laid out inside the bounds of `d` and
/// runs exactly up to the start of entry `i + 1` (or to the end of `d`).
pub open spec fn entry_fits(d: Seq<u8>, o: Seq<u16>, i: int) -> bool {
    let off = o[i] as int;
    &&& off + 2 <= d.len()
    &&& off + 4 + entry_klen(d, off) <= d.len()
    &&& entry_end(d, off) <= d.len()
    &&& entry_end(d, off) == if i + 1 < o.len() {
        o[i + 1] as int
    } else {
        d.len() as int
    }
}

/// The invariant of a block: the offset array points at a contiguous run of
/// entries that fills the data section exactly, every key is non-empty, and
/// the keys are strictly increasing.
pub open spec fn entries_wf(d: Seq<u8>, o: Seq<u16>) -> bool {
    &&& o.len() <= 0xFFFF
    &&& (o.len() == 0 ==> d.len() == 0)
    &&& (o.len() > 0 ==> o[0] == 0)
    &&& forall|i: int| 0 <= i < o.len() ==> #[trigger] entry_fits(d, o, i)
    &&& forall|i: int| 0 <= i < o.len() ==> (#[trigger] entry_key(d, o[i] as int)).len() > 0
    &&& forall|i: int|
        0 <= i < o.len() - 1 ==> lex_lt(
            #[trigger] entry_key(d, o[i] as int),
            entry_key(d, o[i + 1] as int),
        )
}

/// In a well-formed block the keys are strictly increasing between any two
/// positions, not only between neighbours.
pub proof fn lemma_entries_sorted(d: Seq<u8>, o: Seq<u16>, i: int, j: int)
    requires
        entries_wf(d, o),
        0 <= i < j < o.len(),
    ensures
        lex_lt(entry_key(d, o[i] as int), entry_key(d, o[j] as int)),
    decreases j - i,
{
    if j > i + 1 {
        lemma_entries_sorted(d, o, i, j - 1);
        lemma_lex_trans(
            entry_key(d, o[i] as int),
            entry_key(d, o[j - 1] as int),
            entry_key(d, o[j] as int),
        );
    }
}

/// A well-formed data section is short: every entry is bounded by the 16-bit
/// offset and length fields.
pub proof fn lemma_wf_data_len(d: Seq<u8>, o: Seq<u16>)
    requires
        entries_wf(d, o),
    ensures
        d.len() <= 0x30004,
{
    if o.len() > 0 {
        let i = o.len() - 1;
        assert(entry_fits(d, o, i as int));
    }
}

/// The serialized form of a whole block: the data section, then the offset
/// array, then the entry count, all integers big-endian.
pub open spec fn offsets_bytes(o: Seq<u16>) -> Seq<u8> {
    Seq::new(
        2 * o.len(),
        |j: int|
            if j % 2 == 0 {
                (o[j / 2] / 256) as u8
            } else {
                (o[j / 2] % 256) as u8
            },
    )
}

pub open spec fn block_bytes(d: Seq<u8>, o: Seq<u16>) -> Seq<u8> {
    d + offsets_bytes(o) + u16_bytes(o.len() as u16)
}

/// Splits an encoded block back into its data section and offset array, or
/// nothing if the input is too short for the count it claims.
pub open spec fn recover_block(bytes: Seq<u8>) -> Option<(Seq<u8>, Seq<u16>)> {
    if bytes.len() < 2 {
        None
    } else {
        let n = u16_at(bytes, bytes.len() - 2) as int;
        if bytes.len() >= 2 + 2 * n {
            let split = bytes.len() - 2 - 2 * n;
            Some(
                (
                    bytes.take(split),
                    Seq::new(n as nat, |i: int| u16_at(bytes, split + 2 * i)),
                ),
            )
        } else {
            None
        }
    }
}

/// Serialization loses nothing: splitting an encoded block recovers exactly
/// the data section and offset array that were encoded.
pub proof fn lemma_recover_block_bytes(d: Seq<u8>, o: Seq<u16>)
    requires
        o.len() <= 0xFFFF,
    ensures
        recover_block(block_bytes(d, o)) == Some((d, o)),
{
    let bytes = block_bytes(d, o);
    let n = o.len() as int;
    assert(bytes.len() == d.len() + 2 * n + 2);
    let c = o.len() as u16;
    assert(bytes[bytes.len() - 2] == (c / 256) as u8);
    assert(bytes[bytes.len() - 1] == (c % 256) as u8);
    assert((c / 256) as u8 as int * 256 + (c % 256) as u8 as int == c as int);
    assert(u16_at(bytes, bytes.len() - 2) == c);
    let split = bytes.len() - 2 - 2 * n;
    assert(split == d.len());
    assert(bytes.take(split) =~= d);
    let offs = Seq::new(n as nat, |i: int| u16_at(bytes, split + 2 * i));
    assert forall|i: int| 0 <= i < n implies offs[i] == o[i] by {
        assert(bytes[split + 2 * i] == offsets_bytes(o)[2 * i]);
        assert(bytes[split + 2 * i + 1] == offsets_bytes(o)[2 * i + 1]);
        assert((2 * i) / 2 == i);
        assert((2 * i + 1) / 2 == i);
        assert((o[i] / 256) as u8 as int * 256 + (o[i] % 256) as u8 as int == o[i] as int);
    }
    assert(offs =~= o);
}

/// Appends a 16-bit integer, big-endian.
pub fn put_u16(buf: &mut Vec<u8>, x: u16)
    ensures
        final(buf)@ == old(buf)@ + u16_bytes(x),
{
    buf.push((x / 256) as u8);
    buf.push((x % 256) as u8);
    proof {
        assert(buf@ =~= old(buf)@ + u16_bytes(x));
    }
}

/// Reads the 16-bit big-endian integer at position `i`.
pub fn read_u16(s: &[u8], i: usize) -> (r: u16)
    requires
        i + 2 <= s@.len(),
    ensures
        r == u16_at(s@, i as int),
{
    let hi = s[i];
    let lo = s[i + 1];
    hi as u16 * 256 + lo as u16
}

/// Appends a borrowed byte string.
pub fn push_bytes(buf: &mut Vec<u8>, s: &[u8])
    ensures
        final(buf)@ == old(buf)@ + s@,
{
    let n = s.len();
    let mut i: usize = 0;
    while i < n
        invariant
            i <= n,
            n == s@.len(),
            buf@ == old(buf)@ + s@.take(i as int),
        decreases n - i,
    {
        buf.push(s[i]);
        proof {
            assert(old(buf)@ + s@.take(i + 1) =~= (old(buf)@ + s@.take(i as int)).push(s@[i as int]));
        }
        i = i + 1;
    }
    proof {
        assert(s@.take(n as int) =~= s@);
    }
}

/// The ordered key/value sequence laid out in a data section.
pub open spec fn parsed_entries(d: Seq<u8>, o: Seq<u16>) -> Seq<(Seq<u8>, Seq<u8>)> {
    Seq::new(o.len(), |i: int| (entry_key(d, o[i] as int), entry_val(d, o[i] as int)))
}

/// Appending one serialized entry to a well-formed data section keeps it
/// well-formed, leaves the existing entries as they are, and makes the new
/// bytes parse back as exactly the appended pair.
pub proof fn lemma_entries_push(d: Seq<u8>, o: Seq<u16>, k: Seq<u8>, v: Seq<u8>)
    requires
        entries_wf(d, o),
        o.len() < 0x8000,
        d.len() <= 0xFFFF,
        k.len() > 0,
        k.len() <= 0xFFFF,
        v.len() <= 0xFFFF,
        o.len() > 0 ==> lex_lt(entry_key(d, o[o.len() - 1] as int), k),
    ensures
        entries_wf(d + entry_bytes(k, v), o.push(d.len() as u16)),
        parsed_entries(d + entry_bytes(k, v), o.push(d.len() as u16)) == parsed_entries(
            d,
            o,
        ).push((k, v)),
{
    let e = entry_bytes(k, v);
    let d2 = d + e;
    let o2 = o.push(d.len() as u16);
    let n = o.len() as int;
    let base = d.len() as int;
    let kl = k.len() as u16;
    let vl = v.len() as u16;
    assert(e.len() == 4 + k.len() + v.len());
    // the new entry's fields read back from the appended bytes
    assert(d2[base] == (kl / 256) as u8);
    assert(d2[base + 1] == (kl % 256) as u8);
    assert((kl / 256) as u8 as int * 256 + (kl % 256) as u8 as int == kl as int);
    assert(entry_klen(d2, base) == k.len());
    assert(d2[base + 2 + k.len()] == (vl / 256) as u8);
    assert(d2[base + 3 + k.len()] == (vl % 256) as u8);
    assert((vl / 256) as u8 as int * 256 + (vl % 256) as u8 as int == vl as int);
    assert(entry_vlen(d2, base) == v.len());
    assert(entry_key(d2, base) =~= k);
    assert(entry_val(d2, base) =~= v);
    assert(entry_end(d2, base) == d2.len());
    assert(entry_fits(d2, o2, n));
    // the old entries read the same bytes as before
    assert forall|i: int| 0 <= i < n implies {
        &&& entry_klen(d2, o[i] as int) == entry_klen(d, o[i] as int)
        &&& entry_vlen(d2, o[i] as int) == entry_vlen(d, o[i] as int)
        &&& entry_key(d2, o[i] as int) == entry_key(d, o[i] as int)
        &&& entry_val(d2, o[i] as int) == entry_val(d, o[i] as int)
        &&& entry_fits(d2, o2, i)
    } by {
        assert(entry_fits(d, o, i));
        let off = o[i] as int;
        assert(entry_klen(d2, off) == entry_klen(d, off));
        assert(entry_key(d2, off) =~= entry_key(d, off));
        assert(entry_vlen(d2, off) == entry_vlen(d, off));
        assert(entry_val(d2, off) =~= entry_val(d, off));
        if i + 1 < n {
            assert(entry_end(d2, off) == o2[i + 1] as int);
        } else {
            assert(entry_end(d2, off) == base);
            assert(o2[n] as int == base);
        }
    }
    assert forall|i: int| 0 <= i < o2.len() implies (#[trigger] entry_key(
        d2,
        o2[i] as int,
    )).len() > 0 by {
        if i < n {
            let off = o[i] as int;
            assert(entry_fits(d, o, i));
            assert(entry_klen(d2, off) == entry_klen(d, off));
            assert(entry_key(d2, off) =~= entry_key(d, off));
            assert(o2[i] == o[i]);
            assert(entry_key(d, o[i] as int).len() > 0);
        } else {
            assert(o2[i] as int == base);
            assert(entry_key(d2, o2[i] as int) == k);
        }
    }
    assert forall|i: int| 0 <= i < o2.len() - 1 implies lex_lt(
        #[trigger] entry_key(d2, o2[i] as int),
        entry_key(d2, o2[i + 1] as int),
    ) by {
        let off = o[i] as int;
        assert(entry_fits(d, o, i));
        assert(entry_klen(d2, off) == entry_klen(d, off));
        assert(entry_key(d2, off) =~= entry_key(d, off));
        assert(o2[i] == o[i]);
        if i < n - 1 {
            let off2 = o[i + 1] as int;
            assert(entry_fits(d, o, i + 1));
            assert(entry_klen(d2, off2) == entry_klen(d, off2));
            assert(entry_key(d2, off2) =~= entry_key(d, off2));
            assert(o2[i + 1] == o[i + 1]);
            assert(lex_lt(entry_key(d, o[i] as int), entry_key(d, o[i + 1] as int)));
        } else {
            assert(o2[i + 1] as int == base);
            assert(entry_key(d2, o2[i + 1] as int) == k);
            assert(lex_lt(entry_key(d, o[n - 1] as int), k));
        }
    }
    assert(entries_wf(d2, o2));
    assert forall|i: int| 0 <= i < o2.len() implies #[trigger] parsed_entries(d2, o2)[i]
        == parsed_entries(d, o).push((k, v))[i] by {
        if i < n {
            let off = o[i] as int;
            assert(entry_fits(d, o, i));
            assert(entry_klen(d2, off) == entry_klen(d, off));
            assert(entry_key(d2, off) =~= entry_key(d, off));
            assert(entry_vlen(d2, off) == entry_vlen(d, off));
            assert(entry_val(d2, off) =~= entry_val(d, off));
            assert(o2[i] == o[i]);
        } else {
            assert(o2[i] as int == base);
        }
    }
    assert(parsed_entries(d2, o2) =~= parsed_entries(d, o).push((k, v)));
}

/// Accumulates sorted entries into one block under a target byte budget.
pub struct BlockBuilder {
    pub offsets: Vec<u16>,
    pub data: Vec<u8>,
    pub block_size: usize,
}

impl BlockBuilder {
    pub open spec fn wf(&self) -> bool {
        &&& entries_wf(self.data@, self.offsets@)
        &&& self.block_size <= 0xFFFF
    }

    /// The entries added so far, in order.
    pub open spec fn entries(&self) -> Seq<(Seq<u8>, Seq<u8>)> {
        parsed_entries(self.data@, self.offsets@)
    }

    pub open spec fn target_size(&self) -> int {
        self.block_size as int
    }

    /// Byte length of the block if it were encoded now.
    pub open spec fn current_size(&self) -> int {
        self.data@.len() as int + 2 * self.offsets@.len() as int + 2
    }

    /// Whether a key/value pair is taken: always when the block is still
    /// empty, otherwise only while the encoded block stays within budget.
    pub open spec fn accepts(&self, key: Seq<u8>, value: Seq<u8>) -> bool {
        self.offsets@.len() == 0 || self.current_size() + key.len() + value.len() + 6
            <= self.block_size
    }

    /// The last key added so far; meaningful only when non-empty.
    pub open spec fn last_key(&self) -> Seq<u8> {
        entry_key(self.data@, self.offsets@[self.offsets@.len() - 1] as int)
    }

    /// New keys must come strictly after every key already added.
    pub open spec fn admits_key(&self, key: Seq<u8>) -> bool {
        self.offsets@.len() > 0 ==> lex_lt(self.last_key(), key)
    }

    pub fn new(block_size: usize) -> (r: BlockBuilder)
        requires
            block_size <= 0xFFFF,
        ensures
            r.wf(),
            r.entries() == Seq::<(Seq<u8>, Seq<u8>)>::empty(),
            r.target_size() == block_size,
    {
        let r = BlockBuilder { offsets: Vec::new(), data: Vec::new(), block_size };
        proof {
            assert(r.entries() =~= Seq::<(Seq<u8>, Seq<u8>)>::empty());
        }
        r
    }

    pub fn is_empty(&self) -> (r: bool)
        ensures
            r == (self.entries().len() == 0),
    {
        self.offsets.len() == 0
    }

    /// Appends the entry if it fits the budget (always, if the block is
    /// empty); reports whether the entry was taken.
    pub fn add(&mut self, key: &[u8], value: &[u8]) -> (r: bool)
        requires
            old(self).wf(),
            key@.len() > 0,
            key@.len() <= 0xFFFF,
            value@.len() <= 0xFFFF,
            old(self).admits_key(key@),
        ensures
            final(self).wf(),
            final(self).block_size == old(self).block_size,
            r == old(self).accepts(key@, value@),
            r ==> final(self).entries() == old(self).entries().push((key@, value@)),
            r ==> final(self).last_key() == key@,
            r ==> final(self).current_size() == old(self).current_size() + key@.len()
                + value@.len() + 6,
            !r ==> *final(self) == *old(self),
    {
        proof {
            lemma_wf_data_len(self.data@, self.offsets@);
        }
        let n = self.offsets.len();
        if n > 0 {
            let size = self.data.len() + 2 * n + 2;
            if size + key.len() + value.len() + 6 > self.block_size {
                return false;
            }
        }
        proof {
            if n > 0 {
                assert(self.current_size() >= 2 * n + 2);
            }
            lemma_entries_push(self.data@, self.offsets@, key@, value@);
        }
        let off = self.data.len() as u16;
        self.offsets.push(off);
        put_u16(&mut self.data, key.len() as u16);
        push_bytes(&mut self.data, key);
        put_u16(&mut self.data, value.len() as u16);
        push_bytes(&mut self.data, value);
        proof {
            assert(self.data@ =~= old(self).data@ + entry_bytes(key@, value@));
        }
        true
    }

    /// Finalizes the block; the builder must have taken at least one entry.
    pub fn build(self) -> (r: Block)
        requires
            self.wf(),
            self.entries().len() > 0,
        ensures
            r.wf(),
            r.entries() == self.entries(),
            r.offsets@.len() > 0,
    {
        Block { data: self.data, offsets: self.offsets }
    }
}

/// The smallest independently decodable unit of a sorted table: a run of
/// sorted key/value entries plus the offset of each entry's start.
#[derive(Debug)]
pub struct Block {
    pub data: Vec<u8>,
    pub offsets: Vec<u16>,
}

impl Block {
    pub open spec fn wf(&self) -> bool {
        entries_wf(self.data@, self.offsets@)
    }

    pub open spec fn num_entries(&self) -> int {
        self.offsets@.len() as int
    }

    pub open spec fn key_at(&self, i: int) -> Seq<u8> {
        entry_key(self.data@, self.offsets@[i] as int)
    }

    pub open spec fn val_at(&self, i: int) -> Seq<u8> {
        entry_val(self.data@, self.offsets@[i] as int)
    }

    /// The ordered key/value sequence the block holds.
    pub open spec fn entries(&self) -> Seq<(Seq<u8>, Seq<u8>)> {
        parsed_entries(self.data@, self.offsets@)
    }

    /// Serializes the block: data, offset array, entry count.
    pub fn encode(&self) -> (r: Vec<u8>)
        requires
            self.offsets@.len() <= 0xFFFF,
        ensures
            r@ == block_bytes(self.data@, self.offsets@),
    {
        let mut buf = copy_bytes(self.data.as_slice());
        let n = self.offsets.len();
        let mut i: usize = 0;
        while i < n
            invariant
                i <= n,
                n == self.offsets@.len(),
                n <= 0xFFFF,
                buf@ == self.data@ + offsets_bytes(self.offsets@.take(i as int)),
            decreases n - i,
        {
            put_u16(&mut buf, self.offsets[i]);
            proof {
                assert(offsets_bytes(self.offsets@.take(i + 1)) =~= offsets_bytes(
                    self.offsets@.take(i as int),
                ) + u16_bytes(self.offsets@[i as int]));
                assert(buf@ =~= self.data@ + offsets_bytes(self.offsets@.take(i + 1)));
            }
            i = i + 1;
        }
        proof {
            assert(self.offsets@.take(n as int) =~= self.offsets@);
        }
        put_u16(&mut buf, n as u16);
        buf
    }

    /// Deserializes a block, rejecting input that is not the exact encoding
    /// of a well-formed block.
    pub fn decode(bytes: &[u8]) -> (r: Result<Block, Error>)
        ensures
            match r {
                Ok(b) => b.wf() && recover_block(bytes@) == Some((b.data@, b.offsets@)),
                Err(e) => {
                    &&& e == Error::Format
                    &&& match recover_block(bytes@) {
                        Some(p) => !entries_wf(p.0, p.1),
                        None => true,
                    }
                },
            },
    {
        let len = bytes.len();
        if len < 2 {
            return Err(Error::Format);
        }
        let n = read_u16(bytes, len - 2) as usize;
        if len < 2 + 2 * n {
            return Err(Error::Format);
        }
        let split = len - 2 - 2 * n;
        let data = copy_bytes(vstd::slice::slice_subrange(bytes, 0, split));
        proof {
            assert(data@ =~= recover_block(bytes@).unwrap().0);
        }
        let mut offsets: Vec<u16> = Vec::new();
        let mut i: usize = 0;
        while i < n
            invariant
                i <= n,
                len == bytes@.len(),
                len >= 2 + 2 * n,
                split == len - 2 - 2 * n,
                offsets@.len() == i,
                forall|j: int|
                    0 <= j < i ==> offsets@[j] == u16_at(bytes@, split + 2 * j),
            decreases n - i,
        {
            offsets.push(read_u16(bytes, split + 2 * i));
            i = i + 1;
        }
        proof {
            assert(offsets@ =~= recover_block(bytes@).unwrap().1);
        }
        if check_block(&data, &offsets) {
            Ok(Block { data, offsets })
        } else {
            Err(Error::Format)
        }
    }
}

/// Checks the block invariant over a decoded data section and offset array.
pub fn check_block(data: &Vec<u8>, offsets: &Vec<u16>) -> (r: bool)
    ensures
        r == entries_wf(data@, offsets@),
{
    let n = offsets.len();
    if n > 0xFFFF {
        return false;
    }
    if n == 0 {
        return data.len() == 0;
    }
    if offsets[0] != 0 {
        return false;
    }
    let dlen = data.len();
    let mut i: usize = 0;
    while i < n
        invariant
            i <= n,
            0 < n <= 0xFFFF,
            n == offsets@.len(),
            dlen == data@.len(),
            offsets@[0] == 0,
            forall|j: int| 0 <= j < i ==> #[trigger] entry_fits(data@, offsets@, j),
            forall|j: int|
                0 <= j < i ==> (#[trigger] entry_key(data@, offsets@[j] as int)).len() > 0,
            forall|j: int|
                0 <= j < i - 1 ==> lex_lt(
                    #[trigger] entry_key(data@, offsets@[j] as int),
                    entry_key(data@, offsets@[j + 1] as int),
                ),
        decreases n - i,
    {
        let off = offsets[i] as usize;
        proof {
            if entries_wf(data@, offsets@) {
                assert(entry_fits(data@, offsets@, i as int));
                assert(entry_key(data@, offsets@[i as int] as int).len() > 0);
            }
        }
        if off + 2 > dlen {
            return false;
        }
        let klen = read_u16(data.as_slice(), off) as usize;
        if klen == 0 {
            return false;
        }
        if off + 4 + klen > dlen {
            return false;
        }
        let vlen = read_u16(data.as_slice(), off + 2 + klen) as usize;
        let end = off + 4 + klen + vlen;
        if end > dlen {
            return false;
        }
        let next = if i + 1 < n {
            offsets[i + 1] as usize
        } else {
            dlen
        };
        if end != next {
            return false;
        }
        if i > 0 {
            proof {
                assert(entry_fits(data@, offsets@, i - 1));
                if entries_wf(data@, offsets@) {
                    assert(lex_lt(
                        entry_key(data@, offsets@[i - 1] as int),
                        entry_key(data@, offsets@[i as int] as int),
                    ));
                }
            }
            let prev_off = offsets[i - 1] as usize;
            let prev_klen = read_u16(data.as_slice(), prev_off) as usize;
            let prev_key = vstd::slice::slice_subrange(data.as_slice(), prev_off + 2, prev_off + 2 + prev_klen);
            let cur_key = vstd::slice::slice_subrange(data.as_slice(), off + 2, off + 2 + klen);
            if !matches!(key_cmp(prev_key, cur_key), core::cmp::Ordering::Less) {
                return false;
            }
        }
        i = i + 1;
    }
    true
}

} // verus!
