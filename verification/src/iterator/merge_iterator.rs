use vstd::prelude::*;

verus! {

use crate::Error;
use crate::iterator::{StorageIterator, sorted_strict};
use crate::key::{
    lex_lt,
    key_cmp,
    copy_bytes,
    lemma_lex_cmp_eq,
    lemma_lex_cmp_antisym,
    lemma_lex_cmp_range,
    lemma_lex_trans,
};

/// Total number of entries left over all streams of a family.
pub open spec fn total_len(srcs: Seq<Seq<(Seq<u8>, Seq<u8>)>>) -> nat
    decreases srcs.len(),
{
    if srcs.len() == 0 {
        0
    } else {
        srcs[0].len() + total_len(srcs.skip(1))
    }
}

pub proof fn lemma_total_len_zero(srcs: Seq<Seq<(Seq<u8>, Seq<u8>)>>)
    ensures
        (total_len(srcs) == 0) <==> (forall|i: int| 0 <= i < srcs.len() ==> srcs[i].len() == 0),
    decreases srcs.len(),
{
    if srcs.len() > 0 {
        lemma_total_len_zero(srcs.skip(1));
        assert(forall|i: int| 0 <= i < srcs.skip(1).len() ==> srcs.skip(1)[i] == srcs[i + 1]);
        if total_len(srcs) == 0 {
            assert forall|i: int| 0 <= i < srcs.len() implies srcs[i].len() == 0 by {
                if i > 0 {
                    assert(srcs.skip(1)[i - 1] == srcs[i]);
                }
            }
        }
    }
}

/// A family's total is pointwise monotone, and strictly so if any one
/// stream got strictly shorter.
pub proof fn lemma_total_len_mono(a: Seq<Seq<(Seq<u8>, Seq<u8>)>>, b: Seq<Seq<(Seq<u8>, Seq<u8>)>>)
    requires
        a.len() == b.len(),
        forall|i: int| 0 <= i < a.len() ==> a[i].len() <= b[i].len(),
    ensures
        total_len(a) <= total_len(b),
        forall|i: int|
            0 <= i < a.len() && a[i].len() < b[i].len() ==> total_len(a) < total_len(b),
    decreases a.len(),
{
    if a.len() > 0 {
        assert(forall|i: int| 0 <= i < a.skip(1).len() ==> a.skip(1)[i] == a[i + 1]);
        assert(forall|i: int| 0 <= i < b.skip(1).len() ==> b.skip(1)[i] == b[i + 1]);
        lemma_total_len_mono(a.skip(1), b.skip(1));
        assert forall|i: int|
            0 <= i < a.len() && a[i].len() < b[i].len() implies total_len(a) < total_len(b) by {
            if i > 0 {
                assert(a.skip(1)[i - 1] == a[i]);
                assert(b.skip(1)[i - 1] == b[i]);
            }
        }
    }
}

/// Merge preference between the heads of two streams: stream `i` comes no
/// later than stream `j` when its head key is smaller, or the keys are
/// equal and `i` does not come after `j`.
pub open spec fn le_pair(srcs: Seq<Seq<(Seq<u8>, Seq<u8>)>>, i: int, j: int) -> bool {
    lex_lt(srcs[i][0].0, srcs[j][0].0) || (srcs[i][0].0 == srcs[j][0].0 && i <= j)
}

pub proof fn lemma_le_pair_trans(srcs: Seq<Seq<(Seq<u8>, Seq<u8>)>>, a: int, b: int, c: int)
    requires
        le_pair(srcs, a, b),
        le_pair(srcs, b, c),
    ensures
        le_pair(srcs, a, c),
{
    let ka = srcs[a][0].0;
    let kb = srcs[b][0].0;
    let kc = srcs[c][0].0;
    lemma_lex_cmp_eq(ka, kb);
    lemma_lex_cmp_eq(kb, kc);
    lemma_lex_cmp_eq(ka, kc);
    lemma_lex_trans(ka, kb, kc);
}

/// `i` beats `j` when stream `i` is non-empty and either `j` is exhausted
/// or `i` is preferred by head key and position.
pub open spec fn beats(srcs: Seq<Seq<(Seq<u8>, Seq<u8>)>>, i: int, j: int) -> bool {
    srcs[i].len() > 0 && (srcs[j].len() == 0 || le_pair(srcs, i, j))
}

/// The stream that the merge serves next, among positions at or after `i`:
/// the non-empty stream with the smallest head key, the earliest on ties.
pub open spec fn best_idx_from(srcs: Seq<Seq<(Seq<u8>, Seq<u8>)>>, i: int) -> int
    decreases srcs.len() - i,
{
    if i + 1 >= srcs.len() {
        i
    } else {
        let b = best_idx_from(srcs, i + 1);
        if beats(srcs, i, b) {
            i
        } else {
            b
        }
    }
}

pub open spec fn best_idx(srcs: Seq<Seq<(Seq<u8>, Seq<u8>)>>) -> int {
    best_idx_from(srcs, 0)
}

/// When some stream at or after `i` is non-empty, `best_idx_from` lands on
/// a non-empty stream that is preferred over every other non-empty one.
pub proof fn lemma_best_from(srcs: Seq<Seq<(Seq<u8>, Seq<u8>)>>, i: int)
    requires
        0 <= i < srcs.len(),
        exists|j: int| i <= j < srcs.len() && srcs[j].len() > 0,
    ensures
        i <= best_idx_from(srcs, i) < srcs.len(),
        srcs[best_idx_from(srcs, i)].len() > 0,
        forall|j: int|
            i <= j < srcs.len() && srcs[j].len() > 0 ==> le_pair(srcs, best_idx_from(srcs, i), j),
    decreases srcs.len() - i,
{
    if i + 1 >= srcs.len() {
        assert(srcs[i].len() > 0);
    } else {
        let b2 = best_idx_from(srcs, i + 1);
        if exists|j: int| i + 1 <= j < srcs.len() && srcs[j].len() > 0 {
            lemma_best_from(srcs, i + 1);
            if beats(srcs, i, b2) {
                assert(le_pair(srcs, i, b2));
                assert forall|j: int|
                    i <= j < srcs.len() && srcs[j].len() > 0 implies le_pair(
                    srcs,
                    best_idx_from(srcs, i),
                    j,
                ) by {
                    if j > i {
                        lemma_le_pair_trans(srcs, i, b2, j);
                    }
                }
            } else {
                // i does not beat the later best: either i is exhausted or
                // the later best strictly precedes it
                assert forall|j: int|
                    i <= j < srcs.len() && srcs[j].len() > 0 implies le_pair(
                    srcs,
                    best_idx_from(srcs, i),
                    j,
                ) by {
                    if j == i {
                        let ki = srcs[i][0].0;
                        let kb = srcs[b2][0].0;
                        lemma_lex_cmp_eq(ki, kb);
                        lemma_lex_cmp_antisym(ki, kb);
                        lemma_lex_cmp_range(ki, kb);
                        assert(le_pair(srcs, b2, i));
                    }
                }
            }
        } else {
            assert(srcs[i].len() > 0);
            assert(beats(srcs, i, b2) || srcs[b2].len() > 0);
            if srcs[b2].len() > 0 {
                assert(i + 1 <= b2 < srcs.len()) by {
                    lemma_best_from_bounds(srcs, i + 1);
                }
                assert(false);
            }
        }
    }
}

/// `best_idx_from` always stays within the family.
pub proof fn lemma_best_from_bounds(srcs: Seq<Seq<(Seq<u8>, Seq<u8>)>>, i: int)
    requires
        0 <= i < srcs.len(),
    ensures
        i <= best_idx_from(srcs, i) < srcs.len(),
    decreases srcs.len() - i,
{
    if i + 1 < srcs.len() {
        lemma_best_from_bounds(srcs, i + 1);
    }
}

/// Only one stream is preferred over all non-empty streams.
pub proof fn lemma_best_unique(srcs: Seq<Seq<(Seq<u8>, Seq<u8>)>>, c: int)
    requires
        0 <= c < srcs.len(),
        srcs[c].len() > 0,
        forall|j: int| 0 <= j < srcs.len() && srcs[j].len() > 0 ==> le_pair(srcs, c, j),
    ensures
        best_idx(srcs) == c,
{
    assert(exists|j: int| 0 <= j < srcs.len() && srcs[j].len() > 0);
    lemma_best_from(srcs, 0);
    let b = best_idx(srcs);
    assert(le_pair(srcs, b, c));
    assert(le_pair(srcs, c, b));
    let kb = srcs[b][0].0;
    let kc = srcs[c][0].0;
    lemma_lex_cmp_eq(kb, kc);
    lemma_lex_cmp_antisym(kb, kc);
    lemma_lex_cmp_range(kb, kc);
}

/// Every stream whose head carries key `k` steps past it; the others stay.
pub open spec fn drop_key(srcs: Seq<Seq<(Seq<u8>, Seq<u8>)>>, k: Seq<u8>) -> Seq<
    Seq<(Seq<u8>, Seq<u8>)>,
> {
    srcs.map_values(
        |s: Seq<(Seq<u8>, Seq<u8>)>|
            if s.len() > 0 && s[0].0 == k {
                s.skip(1)
            } else {
                s
            },
    )
}

/// A stream whose head carries `k` steps past it.
pub proof fn lemma_drop_key_step(ss: Seq<Seq<(Seq<u8>, Seq<u8>)>>, k: Seq<u8>, i: int)
    requires
        0 <= i < ss.len(),
        ss[i].len() > 0,
        ss[i][0].0 == k,
    ensures
        drop_key(ss, k)[i] == ss[i].skip(1),
{
}

/// A stream whose head does not carry `k` stays as it is.
pub proof fn lemma_drop_key_keep(ss: Seq<Seq<(Seq<u8>, Seq<u8>)>>, k: Seq<u8>, i: int)
    requires
        0 <= i < ss.len(),
        ss[i].len() == 0 || ss[i][0].0 != k,
    ensures
        drop_key(ss, k)[i] == ss[i],
{
}

/// The k-way merge of a family of streams: repeatedly emit the head entry
/// of the preferred stream — the smallest key, served from the earliest
/// stream that holds it — and step every stream whose head carries that key.
pub open spec fn merged(srcs: Seq<Seq<(Seq<u8>, Seq<u8>)>>) -> Seq<(Seq<u8>, Seq<u8>)>
    decreases total_len(srcs),
    when total_len(srcs) >= 0
    via merged_decreases
{
    if total_len(srcs) == 0 {
        Seq::empty()
    } else {
        let b = best_idx(srcs);
        if 0 <= b < srcs.len() && srcs[b].len() > 0 {
            seq![srcs[b][0]] + merged(drop_key(srcs, srcs[b][0].0))
        } else {
            Seq::empty()
        }
    }
}

#[via_fn]
proof fn merged_decreases(srcs: Seq<Seq<(Seq<u8>, Seq<u8>)>>) {
    if total_len(srcs) != 0 {
        let b = best_idx(srcs);
        if 0 <= b < srcs.len() && srcs[b].len() > 0 {
            let k = srcs[b][0].0;
            lemma_total_len_mono(drop_key(srcs, k), srcs);
            assert(drop_key(srcs, k)[b].len() < srcs[b].len());
        }
    }
}

/// Unfolds one merge step once some stream is non-empty.
pub proof fn lemma_merged_unfold(srcs: Seq<Seq<(Seq<u8>, Seq<u8>)>>)
    requires
        total_len(srcs) > 0,
    ensures
        0 <= best_idx(srcs) < srcs.len(),
        srcs[best_idx(srcs)].len() > 0,
        forall|j: int|
            0 <= j < srcs.len() && srcs[j].len() > 0 ==> le_pair(srcs, best_idx(srcs), j),
        merged(srcs) == seq![srcs[best_idx(srcs)][0]] + merged(
            drop_key(srcs, srcs[best_idx(srcs)][0].0),
        ),
{
    lemma_total_len_zero(srcs);
    lemma_best_from(srcs, 0);
}

/// The total is at least the length of any single stream.
pub proof fn lemma_total_len_lb(srcs: Seq<Seq<(Seq<u8>, Seq<u8>)>>, i: int)
    requires
        0 <= i < srcs.len(),
    ensures
        total_len(srcs) >= srcs[i].len(),
    decreases srcs.len(),
{
    if i > 0 {
        assert(srcs.skip(1)[i - 1] == srcs[i]);
        lemma_total_len_lb(srcs.skip(1), i - 1);
    }
}

/// Pairs an iterator with its priority rank; lower rank means more
/// recently written, and wins ties between equal keys.
pub struct HeapWrapper<T: StorageIterator>(pub usize, pub Box<T>);

/// A k-way merge over a fixed family of sources, each already sorted with
/// no internal duplicates. The family keeps its creation order; exhausted
/// sources simply hold an empty stream.
pub struct MergeIterator<T: StorageIterator> {
    pub iters: Vec<HeapWrapper<T>>,
    pub current: Option<usize>,
}

/// The streams a family of ranked sources still holds, in rank order.
pub open spec fn streams_of<T: StorageIterator>(iters: Seq<HeapWrapper<T>>) -> Seq<
    Seq<(Seq<u8>, Seq<u8>)>,
> {
    iters.map_values(|w: HeapWrapper<T>| (*w.1).remaining())
}

impl<T: StorageIterator> MergeIterator<T> {
    pub open spec fn streams(&self) -> Seq<Seq<(Seq<u8>, Seq<u8>)>> {
        streams_of(self.iters@)
    }

    pub open spec fn src_inv(&self) -> bool {
        &&& forall|i: int| 0 <= i < self.iters@.len() ==> (*#[trigger] self.iters@[i].1).inv()
        &&& forall|i: int| 0 <= i < self.iters@.len() ==> (#[trigger] self.iters@[i]).0 == i
        &&& forall|i: int|
            0 <= i < self.iters@.len() ==> sorted_strict(#[trigger] self.streams()[i])
    }

    pub open spec fn current_ok(&self) -> bool {
        match self.current {
            Some(c) => {
                &&& (c as int) < self.iters@.len()
                &&& self.streams()[c as int].len() > 0
                &&& c as int == best_idx(self.streams())
            },
            None => total_len(self.streams()) == 0,
        }
    }

    /// Scans the family for the stream the merge must serve next.
    fn pick_best(iters: &Vec<HeapWrapper<T>>) -> (r: Option<usize>)
        requires
            forall|i: int| 0 <= i < iters@.len() ==> (*#[trigger] iters@[i].1).inv(),
        ensures
            match r {
                Some(b) => {
                    &&& (b as int) < iters@.len()
                    &&& streams_of(iters@)[b as int].len() > 0
                    &&& b as int == best_idx(streams_of(iters@))
                },
                None => total_len(streams_of(iters@)) == 0,
            },
    {
        let ghost ss = streams_of(iters@);
        let n = iters.len();
        let mut best: Option<usize> = None;
        let mut j: usize = 0;
        while j < n
            invariant
                j <= n,
                n == iters@.len(),
                ss == streams_of(iters@),
                forall|i: int| 0 <= i < iters@.len() ==> (*#[trigger] iters@[i].1).inv(),
                match best {
                    Some(b) => {
                        &&& (b as int) < j
                        &&& ss[b as int].len() > 0
                        &&& forall|l: int| 0 <= l < j && ss[l].len() > 0 ==> le_pair(ss, b as int, l)
                    },
                    None => forall|l: int| 0 <= l < j ==> ss[l].len() == 0,
                },
            decreases n - j,
        {
            proof {
                assert(ss[j as int] == (*iters@[j as int].1).remaining());
            }
            if iters[j].1.is_valid() {
                match best {
                    None => {
                        best = Some(j);
                        proof {
                            lemma_lex_cmp_eq(ss[j as int][0].0, ss[j as int][0].0);
                        }
                    },
                    Some(b) => {
                        let kj = iters[j].1.key();
                        let kb = iters[b].1.key();
                        if matches!(key_cmp(kj, kb), core::cmp::Ordering::Less) {
                            best = Some(j);
                            proof {
                                let bi = b as int;
                                assert forall|l: int|
                                    0 <= l < j + 1 && ss[l].len() > 0 implies le_pair(
                                    ss,
                                    j as int,
                                    l,
                                ) by {
                                    if l < j {
                                        lemma_le_pair_trans(ss, j as int, bi, l);
                                    } else {
                                        lemma_lex_cmp_eq(ss[l][0].0, ss[l][0].0);
                                    }
                                }
                            }
                        } else {
                            proof {
                                let bi = b as int;
                                lemma_lex_cmp_eq(ss[j as int][0].0, ss[bi][0].0);
                                lemma_lex_cmp_antisym(ss[j as int][0].0, ss[bi][0].0);
                                lemma_lex_cmp_range(ss[j as int][0].0, ss[bi][0].0);
                                assert(le_pair(ss, bi, j as int));
                            }
                        }
                    },
                }
            }
            j = j + 1;
        }
        proof {
            match best {
                Some(b) => {
                    lemma_best_unique(ss, b as int);
                },
                None => {
                    lemma_total_len_zero(ss);
                },
            }
        }
        best
    }

    /// Builds the merge over the given sources; position in the vector is
    /// the priority rank, position 0 the most recent.
    pub fn create(iters: Vec<Box<T>>) -> (r: MergeIterator<T>)
        requires
            forall|i: int|
                0 <= i < iters@.len() ==> (*#[trigger] iters@[i]).inv() && sorted_strict(
                    (*iters@[i]).remaining(),
                ),
        ensures
            r.inv(),
            r.remaining() == merged(iters@.map_values(|b: Box<T>| (*b).remaining())),
            (forall|i: int| 0 <= i < iters@.len() ==> (*#[trigger] iters@[i]).never_fails())
                ==> r.never_fails(),
    {
        let ghost orig = iters@;
        let mut rest = iters;
        let mut ws: Vec<HeapWrapper<T>> = Vec::new();
        while rest.len() > 0
            invariant
                ws@.len() + rest@.len() == orig.len(),
                forall|i: int| 0 <= i < ws@.len() ==> ws@[i].1 == orig[i],
                forall|i: int| 0 <= i < ws@.len() ==> (#[trigger] ws@[i]).0 == i,
                forall|i: int| 0 <= i < rest@.len() ==> rest@[i] == orig[ws@.len() + i],
                forall|i: int|
                    0 <= i < orig.len() ==> (*#[trigger] orig[i]).inv() && sorted_strict(
                        (*orig[i]).remaining(),
                    ),
            decreases rest@.len(),
        {
            let b = rest.remove(0);
            let ghost pos = ws@.len();
            proof {
                assert(b == orig[pos as int]);
            }
            let idx = ws.len();
            ws.push(HeapWrapper(idx, b));
        }
        proof {
            assert forall|i: int| 0 <= i < ws@.len() implies (*#[trigger] ws@[i].1).inv() by {
                assert((*orig[i]).inv());
            }
        }
        let best = Self::pick_best(&ws);
        let r = MergeIterator { iters: ws, current: best };
        proof {
            assert(r.streams() =~= orig.map_values(|b: Box<T>| (*b).remaining()));
            assert forall|i: int| 0 <= i < r.iters@.len() implies sorted_strict(
                #[trigger] r.streams()[i],
            ) by {
                assert(r.streams()[i] == (*orig[i]).remaining());
            }
            if forall|i: int| 0 <= i < orig.len() ==> (*#[trigger] orig[i]).never_fails() {
                assert forall|i: int| 0 <= i < r.iters@.len() implies (
                #[trigger] *r.iters@[i].1).never_fails() by {
                    assert((*orig[i]).never_fails());
                }
            }
        }
        r
    }
}

impl<T: StorageIterator> StorageIterator for MergeIterator<T> {
    open spec fn inv(&self) -> bool {
        &&& self.src_inv()
        &&& self.current_ok()
    }

    open spec fn remaining(&self) -> Seq<(Seq<u8>, Seq<u8>)> {
        merged(self.streams())
    }

    open spec fn never_fails(&self) -> bool {
        forall|i: int| 0 <= i < self.iters@.len() ==> (*#[trigger] self.iters@[i].1).never_fails()
    }

    fn is_valid(&self) -> (r: bool)
        ensures
            r == (self.remaining().len() > 0),
    {
        proof {
            match self.current {
                Some(c) => {
                    lemma_total_len_lb(self.streams(), c as int);
                    lemma_merged_unfold(self.streams());
                },
                None => {},
            }
        }
        match self.current {
            Some(_) => true,
            None => false,
        }
    }

    fn key(&self) -> (r: &[u8])
        ensures
            r@ == self.remaining()[0].0,
    {
        let c = match self.current {
            Some(c) => c,
            None => {
                proof {
                    assert(false);
                }
                0
            },
        };
        proof {
            lemma_total_len_lb(self.streams(), c as int);
            lemma_merged_unfold(self.streams());
        }
        self.iters[c].1.key()
    }

    fn value(&self) -> (r: &[u8])
        ensures
            r@ == self.remaining()[0].1,
    {
        let c = match self.current {
            Some(c) => c,
            None => {
                proof {
                    assert(false);
                }
                0
            },
        };
        proof {
            lemma_total_len_lb(self.streams(), c as int);
            lemma_merged_unfold(self.streams());
        }
        self.iters[c].1.value()
    }

    fn next(&mut self) -> (r: Result<(), Error>)
        ensures
            r is Ok && old(self).remaining().len() > 0 ==> final(self).inv() && final(self).remaining() == old(self).remaining().skip(1),
            r is Ok && old(self).remaining().len() == 0 ==> final(self).inv() && final(self).remaining().len() == 0,
            old(self).remaining().len() == 0 ==> r is Ok,
    {
        let c = match self.current {
            Some(c) => c,
            None => {
                return Ok(());
            },
        };
        let ghost ss = self.streams();
        proof {
            lemma_total_len_lb(ss, c as int);
            lemma_merged_unfold(ss);
        }
        let key = copy_bytes(self.iters[c].1.key());
        let ghost k = key@;
        // step every source whose head carries the current key; this is
        // where stale duplicates in lower-priority sources are consumed
        let n = self.iters.len();
        let mut i: usize = 0;
        while i < n
            invariant
                i <= n,
                n == self.iters@.len(),
                ss.len() == n,
                k == key@,
                forall|j: int| 0 <= j < n ==> (*#[trigger] self.iters@[j].1).inv(),
                forall|j: int| 0 <= j < n ==> (#[trigger] self.iters@[j]).0 == j,
                forall|j: int| 0 <= j < i ==> self.streams()[j] == drop_key(ss, k)[j],
                forall|j: int| i <= j < n ==> self.streams()[j] == ss[j],
                forall|j: int| 0 <= j < n ==> sorted_strict(#[trigger] ss[j]),
                old(self).remaining().len() > 0,
                old(self).never_fails() ==> forall|j: int|
                    0 <= j < n ==> (*#[trigger] self.iters@[j].1).never_fails(),
            decreases n - i,
        {
            proof {
                assert(self.streams()[i as int] == (*self.iters@[i as int].1).remaining());
            }
            let mut advance = false;
            if self.iters[i].1.is_valid() {
                let wk = self.iters[i].1.key();
                if matches!(key_cmp(wk, key.as_slice()), core::cmp::Ordering::Equal) {
                    proof {
                        lemma_lex_cmp_eq(ss[i as int][0].0, k);
                    }
                    advance = true;
                }
            }
            if advance {
                let ghost prev = self.iters@;
                let mut w = self.iters.remove(i);
                proof {
                    assert(w == prev[i as int]);
                    assert((*w.1).remaining() == ss[i as int]);
                }
                let res = w.1.next();
                let failed = res.is_err();
                self.iters.insert(i, w);
                proof {
                    assert(self.iters@ =~= prev.update(i as int, w));
                }
                if failed {
                    return res;
                }
                proof {
                    assert(ss[i as int].len() > 0);
                    assert(ss[i as int][0].0 == k);
                    assert((*self.iters@[i as int].1).remaining() == ss[i as int].skip(1));
                    lemma_drop_key_step(ss, k, i as int);
                    assert forall|j: int| 0 <= j < i + 1 implies self.streams()[j] == drop_key(
                        ss,
                        k,
                    )[j] by {
                        assert(self.streams()[j] == (*self.iters@[j].1).remaining());
                        if j < i {
                            assert(self.iters@[j] == prev[j]);
                        }
                    }
                    assert forall|j: int| i + 1 <= j < n implies self.streams()[j] == ss[j] by {
                        assert(self.streams()[j] == (*self.iters@[j].1).remaining());
                        assert(self.iters@[j] == prev[j]);
                    }
                    assert forall|j: int| 0 <= j < n implies (*#[trigger] self.iters@[j].1).inv()
                        by {
                        if j != i {
                            assert(self.iters@[j] == prev[j]);
                        }
                    }
                    assert forall|j: int| 0 <= j < n implies (#[trigger] self.iters@[j]).0 == j by {
                        if j != i {
                            assert(self.iters@[j] == prev[j]);
                        }
                    }
                    if old(self).never_fails() {
                        assert forall|j: int| 0 <= j < n implies (
                        #[trigger] *self.iters@[j].1).never_fails() by {
                            if j != i {
                                assert(self.iters@[j] == prev[j]);
                            }
                        }
                    }
                }
            } else {
                proof {
                    if ss[i as int].len() > 0 {
                        lemma_lex_cmp_eq(ss[i as int][0].0, k);
                    }
                    lemma_drop_key_keep(ss, k, i as int);
                }
            }
            i = i + 1;
        }
        proof {
            assert(self.streams() =~= drop_key(ss, k));
        }
        // the stale duplicates and the current entry are consumed; pick the
        // source that serves the next key
        let best = Self::pick_best(&self.iters);
        self.current = best;
        proof {
            assert forall|j: int| 0 <= j < self.iters@.len() implies sorted_strict(
                #[trigger] self.streams()[j],
            ) by {
                if ss[j].len() > 0 && ss[j][0].0 == k {
                    let s = ss[j];
                    assert(self.streams()[j] == s.skip(1));
                    assert forall|a: int, b: int|
                        0 <= a < b < s.skip(1).len() implies lex_lt(
                        s.skip(1)[a].0,
                        s.skip(1)[b].0,
                    ) by {
                        assert(s.skip(1)[a] == s[a + 1]);
                        assert(s.skip(1)[b] == s[b + 1]);
                    }
                } else {
                    assert(self.streams()[j] == ss[j]);
                }
            }
            assert(merged(ss).skip(1) =~= merged(self.streams()));
        }
        Ok(())
    }
}

/// Every key of every stream lies strictly above `k`.
pub open spec fn all_above(srcs: Seq<Seq<(Seq<u8>, Seq<u8>)>>, k: Seq<u8>) -> bool {
    forall|j: int, u: int|
        0 <= j < srcs.len() && 0 <= u < srcs[j].len() ==> lex_lt(k, (#[trigger] srcs[j][u]).0)
}

/// Some stream holds the key `k`.
pub open spec fn has_key(s: Seq<(Seq<u8>, Seq<u8>)>, k: Seq<u8>) -> bool {
    exists|u: int| 0 <= u < s.len() && s[u].0 == k
}

/// The merge of streams that all lie above `k` stays above `k`.
pub proof fn lemma_merged_above(srcs: Seq<Seq<(Seq<u8>, Seq<u8>)>>, k: Seq<u8>)
    requires
        all_above(srcs, k),
    ensures
        forall|t: int| 0 <= t < merged(srcs).len() ==> lex_lt(k, (#[trigger] merged(srcs)[t]).0),
    decreases total_len(srcs),
{
    if total_len(srcs) > 0 {
        lemma_merged_unfold(srcs);
        let b = best_idx(srcs);
        let k0 = srcs[b][0].0;
        let dropped = drop_key(srcs, k0);
        assert forall|j: int, u: int|
            0 <= j < dropped.len() && 0 <= u < dropped[j].len() implies lex_lt(
            k,
            (#[trigger] dropped[j][u]).0,
        ) by {
            if srcs[j].len() > 0 && srcs[j][0].0 == k0 {
                assert(dropped[j][u] == srcs[j][u + 1]);
            } else {
                assert(dropped[j][u] == srcs[j][u]);
            }
        }
        lemma_total_len_mono(dropped, srcs);
        assert(dropped[b].len() < srcs[b].len());
        lemma_merged_above(dropped, k);
        assert forall|t: int| 0 <= t < merged(srcs).len() implies lex_lt(
            k,
            (#[trigger] merged(srcs)[t]).0,
        ) by {
            if t > 0 {
                assert(merged(srcs)[t] == merged(dropped)[t - 1]);
            }
        }
    }
}

/// The merge of individually sorted duplicate-free streams is strictly
/// increasing in key: every key is delivered at most once, in order.
pub proof fn lemma_merged_sorted(srcs: Seq<Seq<(Seq<u8>, Seq<u8>)>>)
    requires
        forall|i: int| 0 <= i < srcs.len() ==> sorted_strict(#[trigger] srcs[i]),
    ensures
        sorted_strict(merged(srcs)),
        total_len(srcs) > 0 ==> all_above(
            drop_key(srcs, srcs[best_idx(srcs)][0].0),
            srcs[best_idx(srcs)][0].0,
        ),
    decreases total_len(srcs),
{
    if total_len(srcs) > 0 {
        lemma_merged_unfold(srcs);
        let b = best_idx(srcs);
        let k0 = srcs[b][0].0;
        let dropped = drop_key(srcs, k0);
        assert forall|j: int, u: int|
            0 <= j < dropped.len() && 0 <= u < dropped[j].len() implies lex_lt(
            k0,
            (#[trigger] dropped[j][u]).0,
        ) by {
            assert(sorted_strict(srcs[j]));
            if srcs[j].len() > 0 && srcs[j][0].0 == k0 {
                assert(dropped[j][u] == srcs[j][u + 1]);
                assert(lex_lt(srcs[j][0].0, srcs[j][u + 1].0));
            } else {
                assert(dropped[j][u] == srcs[j][u]);
                assert(le_pair(srcs, b, j));
                lemma_lex_cmp_eq(k0, srcs[j][0].0);
                if u > 0 {
                    assert(lex_lt(srcs[j][0].0, srcs[j][u].0));
                    lemma_lex_trans(k0, srcs[j][0].0, srcs[j][u].0);
                }
            }
        }
        assert forall|i: int| 0 <= i < dropped.len() implies sorted_strict(#[trigger] dropped[i])
            by {
            assert(sorted_strict(srcs[i]));
            if srcs[i].len() > 0 && srcs[i][0].0 == k0 {
                let s = srcs[i];
                assert forall|a: int, c: int|
                    0 <= a < c < s.skip(1).len() implies #[trigger] lex_lt(
                    s.skip(1)[a].0,
                    s.skip(1)[c].0,
                ) by {
                    assert(s.skip(1)[a] == s[a + 1]);
                    assert(s.skip(1)[c] == s[c + 1]);
                }
                assert(dropped[i] == s.skip(1));
            }
        }
        lemma_total_len_mono(dropped, srcs);
        assert(dropped[b].len() < srcs[b].len());
        lemma_merged_sorted(dropped);
        lemma_merged_above(dropped, k0);
        assert forall|t1: int, t2: int|
            0 <= t1 < t2 < merged(srcs).len() implies #[trigger] lex_lt(
            merged(srcs)[t1].0,
            merged(srcs)[t2].0,
        ) by {
            assert(merged(srcs)[t2] == merged(dropped)[t2 - 1]);
            if t1 > 0 {
                assert(merged(srcs)[t1] == merged(dropped)[t1 - 1]);
            }
        }
    }
}

/// Every entry the merge delivers comes from some stream that holds it,
/// and no stream with a smaller rank holds the same key: for a key present
/// in several streams, the value of the earliest one is delivered.
pub proof fn lemma_merged_provenance(srcs: Seq<Seq<(Seq<u8>, Seq<u8>)>>, t: int)
    requires
        forall|i: int| 0 <= i < srcs.len() ==> sorted_strict(#[trigger] srcs[i]),
        0 <= t < merged(srcs).len(),
    ensures
        exists|j: int|
            0 <= j < srcs.len() && (#[trigger] has_key(srcs[j], merged(srcs)[t].0)) && srcs[j].contains(
                merged(srcs)[t],
            ) && forall|l: int| 0 <= l < j ==> !has_key(#[trigger] srcs[l], merged(srcs)[t].0),
    decreases total_len(srcs),
{
    lemma_total_len_zero(srcs);
    lemma_merged_unfold(srcs);
    let b = best_idx(srcs);
    let k0 = srcs[b][0].0;
    let dropped = drop_key(srcs, k0);
    lemma_merged_sorted(srcs);
    if t == 0 {
        let e = merged(srcs)[0];
        assert(e == srcs[b][0]);
        assert(srcs[b].contains(e)) by {
            assert(srcs[b][0] == e);
        }
        assert(has_key(srcs[b], e.0)) by {
            assert(srcs[b][0].0 == e.0);
        }
        assert forall|l: int| 0 <= l < b implies !has_key(#[trigger] srcs[l], e.0) by {
            if has_key(srcs[l], e.0) {
                let u = choose|u: int| 0 <= u < srcs[l].len() && srcs[l][u].0 == e.0;
                assert(srcs[l].len() > 0);
                assert(le_pair(srcs, b, l));
                assert(sorted_strict(srcs[l]));
                if u > 0 {
                    assert(lex_lt(srcs[l][0].0, srcs[l][u].0));
                }
                lemma_lex_cmp_eq(k0, srcs[l][0].0);
                lemma_lex_cmp_antisym(k0, srcs[l][0].0);
                lemma_lex_cmp_range(k0, srcs[l][0].0);
                assert(false);
            }
        }
    } else {
        lemma_total_len_mono(dropped, srcs);
        assert(dropped[b].len() < srcs[b].len());
        lemma_merged_provenance(dropped, t - 1);
        let e = merged(srcs)[t];
        assert(e == merged(dropped)[t - 1]);
        let j = choose|j: int|
            0 <= j < dropped.len() && (#[trigger] has_key(dropped[j], e.0)) && dropped[j].contains(
                e,
            ) && forall|l: int| 0 <= l < j ==> !has_key(#[trigger] dropped[l], e.0);
        assert(lex_lt(k0, e.0)) by {
            lemma_merged_above(dropped, k0);
        }
        lemma_lex_cmp_eq(k0, e.0);
        assert(srcs[j].contains(e)) by {
            let u = choose|u: int| 0 <= u < dropped[j].len() && dropped[j][u] == e;
            if srcs[j].len() > 0 && srcs[j][0].0 == k0 {
                assert(srcs[j][u + 1] == e);
            } else {
                assert(srcs[j][u] == e);
            }
        }
        assert(has_key(srcs[j], e.0)) by {
            let u = choose|u: int| 0 <= u < srcs[j].len() && srcs[j][u] == e;
            assert(srcs[j][u].0 == e.0);
        }
        assert forall|l: int| 0 <= l < j implies !has_key(#[trigger] srcs[l], e.0) by {
            if has_key(srcs[l], e.0) {
                let u = choose|u: int| 0 <= u < srcs[l].len() && srcs[l][u].0 == e.0;
                if srcs[l].len() > 0 && srcs[l][0].0 == k0 {
                    assert(u != 0);
                    assert(dropped[l][u - 1] == srcs[l][u]);
                    assert(has_key(dropped[l], e.0)) by {
                        assert(dropped[l][u - 1].0 == e.0);
                    }
                } else {
                    assert(dropped[l][u] == srcs[l][u]);
                    assert(has_key(dropped[l], e.0)) by {
                        assert(dropped[l][u].0 == e.0);
                    }
                }
                assert(false);
            }
        }
        assert(0 <= j < srcs.len() && has_key(srcs[j], e.0) && srcs[j].contains(e) && forall|
            l: int,
        | 0 <= l < j ==> !has_key(#[trigger] srcs[l], e.0));
    }
}


/// The merge loses nothing: an entry of some stream whose key no earlier
/// stream holds is delivered.
pub proof fn lemma_merged_complete(srcs: Seq<Seq<(Seq<u8>, Seq<u8>)>>, j: int, u: int)
    requires
        forall|i: int| 0 <= i < srcs.len() ==> sorted_strict(#[trigger] srcs[i]),
        0 <= j < srcs.len(),
        0 <= u < srcs[j].len(),
        forall|l: int| 0 <= l < j ==> !has_key(#[trigger] srcs[l], srcs[j][u].0),
    ensures
        merged(srcs).contains(srcs[j][u]),
    decreases total_len(srcs),
{
    let e = srcs[j][u];
    lemma_total_len_lb(srcs, j);
    lemma_merged_unfold(srcs);
    let b = best_idx(srcs);
    let k0 = srcs[b][0].0;
    let dropped = drop_key(srcs, k0);
    lemma_total_len_mono(dropped, srcs);
    assert(dropped[b].len() < srcs[b].len());
    lemma_lex_cmp_eq(e.0, k0);
    if e.0 == k0 {
        // the key served now: the entry must stand at the head of its
        // stream, and its stream must be the best one
        assert(sorted_strict(srcs[j]));
        if u > 0 {
            assert(lex_lt(srcs[j][0].0, srcs[j][u].0));
            assert(le_pair(srcs, b, j));
            lemma_lex_cmp_eq(k0, srcs[j][0].0);
            lemma_lex_cmp_antisym(k0, srcs[j][0].0);
            lemma_lex_cmp_range(k0, srcs[j][0].0);
            assert(false);
        }
        assert(u == 0);
        if b < j {
            assert(has_key(srcs[b], e.0)) by {
                assert(srcs[b][0].0 == e.0);
            }
            assert(false);
        }
        assert(le_pair(srcs, b, j));
        lemma_lex_cmp_eq(k0, srcs[j][0].0);
        lemma_lex_cmp_antisym(k0, srcs[j][0].0);
        lemma_lex_cmp_range(k0, srcs[j][0].0);
        assert(b == j);
        assert(merged(srcs)[0] == e);
        assert(merged(srcs).contains(e)) by {
            assert(merged(srcs)[0] == e);
        }
    } else {
        // a later key: it survives the first step and is delivered deeper
        let (j2, u2): (int, int) = if srcs[j].len() > 0 && srcs[j][0].0 == k0 {
            (j, u - 1)
        } else {
            (j, u)
        };
        assert(u2 >= 0) by {
            if srcs[j].len() > 0 && srcs[j][0].0 == k0 {
                assert(srcs[j][0].0 != e.0);
            }
        }
        assert(dropped[j2][u2] == e);
        assert forall|l: int| 0 <= l < j2 implies !has_key(#[trigger] dropped[l], e.0) by {
            if has_key(dropped[l], e.0) {
                let w = choose|w: int| 0 <= w < dropped[l].len() && dropped[l][w].0 == e.0;
                if srcs[l].len() > 0 && srcs[l][0].0 == k0 {
                    assert(srcs[l][w + 1].0 == e.0);
                    assert(has_key(srcs[l], e.0)) by {
                        assert(srcs[l][w + 1].0 == e.0);
                    }
                } else {
                    assert(srcs[l][w].0 == e.0);
                    assert(has_key(srcs[l], e.0)) by {
                        assert(srcs[l][w].0 == e.0);
                    }
                }
                assert(false);
            }
        }
        assert forall|i: int| 0 <= i < dropped.len() implies sorted_strict(#[trigger] dropped[i])
            by {
            assert(sorted_strict(srcs[i]));
            if srcs[i].len() > 0 && srcs[i][0].0 == k0 {
                let s = srcs[i];
                assert forall|a2: int, c2: int|
                    0 <= a2 < c2 < s.skip(1).len() implies #[trigger] lex_lt(
                    s.skip(1)[a2].0,
                    s.skip(1)[c2].0,
                ) by {
                    assert(s.skip(1)[a2] == s[a2 + 1]);
                    assert(s.skip(1)[c2] == s[c2 + 1]);
                }
                assert(dropped[i] == s.skip(1));
            }
        }
        lemma_merged_complete(dropped, j2, u2);
        let t = choose|t: int| 0 <= t < merged(dropped).len() && merged(dropped)[t] == e;
        assert(merged(srcs).contains(e)) by {
            assert(merged(srcs)[t + 1] == e);
        }
    }
}


} // verus!
