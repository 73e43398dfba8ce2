use vstd::prelude::*;

verus! {

use crate::Error;
use crate::iterator::StorageIterator;
use crate::iterator::merge_iterator::MergeIterator;
use crate::mem_table::MemTableIterator;

pub type LsmIteratorInner = MergeIterator<MemTableIterator>;

/// The entries that survive tombstone filtering: those whose value is
/// non-empty.
pub open spec fn live_entries(s: Seq<(Seq<u8>, Seq<u8>)>) -> Seq<(Seq<u8>, Seq<u8>)>
    decreases s.len(),
{
    if s.len() == 0 {
        Seq::empty()
    } else if s[0].1.len() > 0 {
        seq![s[0]] + live_entries(s.skip(1))
    } else {
        live_entries(s.skip(1))
    }
}

/// Filters a merged stream down to the entries a reader may observe:
/// tombstones are dropped, everything else is kept in order.
pub struct LsmIterator {
    pub inner: LsmIteratorInner,
}

impl LsmIterator {
    pub fn new(iter: LsmIteratorInner) -> (r: Result<LsmIterator, Error>)
        requires
            iter.inv(),
        ensures
            iter.never_fails() ==> r is Ok,
            match r {
                Ok(it) => it.inv() && it.remaining() == live_entries(iter.remaining()) && (
                iter.never_fails() ==> it.never_fails()),
                Err(_) => true,
            },
    {
        let mut it = LsmIterator { inner: iter };
        match it.move_to_non_delete() {
            Ok(()) => Ok(it),
            Err(e) => Err(e),
        }
    }

    /// Steps the merged stream forward until it stands on a live entry or
    /// runs out.
    fn move_to_non_delete(&mut self) -> (r: Result<(), Error>)
        requires
            old(self).inner.inv(),
        ensures
            r is Ok ==> {
                &&& final(self).inner.inv()
                &&& (final(self).inner.remaining().len() > 0 ==> final(self).inner.remaining()[0].1.len() > 0)
                &&& live_entries(final(self).inner.remaining()) == live_entries(
                    old(self).inner.remaining(),
                )
            },
            old(self).inner.never_fails() ==> r is Ok && final(self).inner.never_fails(),
    {
        let ghost orig = self.inner.remaining();
        loop
            invariant
                orig == old(self).inner.remaining(),
                self.inner.inv(),
                live_entries(self.inner.remaining()) == live_entries(orig),
                old(self).inner.never_fails() ==> self.inner.never_fails(),
            decreases self.inner.remaining().len(),
        {
            if !self.inner.is_valid() {
                return Ok(());
            }
            if self.inner.value().len() > 0 {
                return Ok(());
            }
            let res = self.inner.next();
            if res.is_err() {
                return res;
            }
        }
    }
}

impl StorageIterator for LsmIterator {
    open spec fn inv(&self) -> bool {
        &&& self.inner.inv()
        &&& (self.inner.remaining().len() > 0 ==> self.inner.remaining()[0].1.len() > 0)
    }

    open spec fn remaining(&self) -> Seq<(Seq<u8>, Seq<u8>)> {
        live_entries(self.inner.remaining())
    }

    open spec fn never_fails(&self) -> bool {
        self.inner.never_fails()
    }

    fn is_valid(&self) -> (r: bool)
        ensures
            r == (self.remaining().len() > 0),
    {
        self.inner.is_valid()
    }

    fn key(&self) -> (r: &[u8])
        ensures
            r@ == self.remaining()[0].0,
    {
        self.inner.key()
    }

    fn value(&self) -> (r: &[u8])
        ensures
            r@ == self.remaining()[0].1,
    {
        self.inner.value()
    }

    fn next(&mut self) -> (r: Result<(), Error>)
        ensures
            r is Ok && old(self).remaining().len() > 0 ==> final(self).inv() && final(self).remaining() == old(self).remaining().skip(1),
            r is Ok && old(self).remaining().len() == 0 ==> final(self).inv() && final(self).remaining().len() == 0,
            old(self).remaining().len() == 0 ==> r is Ok,
    {
        let ghost s = self.inner.remaining();
        if !self.inner.is_valid() {
            return Ok(());
        }
        let res = self.inner.next();
        if res.is_err() {
            return res;
        }
        proof {
            assert(live_entries(s) == seq![s[0]] + live_entries(s.skip(1)));
            assert(live_entries(s).skip(1) =~= live_entries(s.skip(1)));
        }
        let res2 = self.move_to_non_delete();
        if res2.is_err() {
            return res2;
        }
        Ok(())
    }
}

/// Guards an iterator against use after a failure: once a `next` call has
/// failed, every later `next` fails at once without touching the inner
/// iterator, and the stream reads as exhausted.
pub struct FusedIterator<I: StorageIterator> {
    pub iter: I,
    pub has_errored: bool,
}

impl<I: StorageIterator> FusedIterator<I> {
    pub fn new(iter: I) -> (r: FusedIterator<I>)
        requires
            iter.inv(),
        ensures
            r.inv(),
            !r.has_errored,
            r.remaining() == iter.remaining(),
            r.never_fails() == iter.never_fails(),
    {
        FusedIterator { iter, has_errored: false }
    }
}

impl<I: StorageIterator> StorageIterator for FusedIterator<I> {
    open spec fn inv(&self) -> bool {
        self.has_errored || self.iter.inv()
    }

    open spec fn remaining(&self) -> Seq<(Seq<u8>, Seq<u8>)> {
        if self.has_errored {
            Seq::empty()
        } else {
            self.iter.remaining()
        }
    }

    open spec fn never_fails(&self) -> bool {
        !self.has_errored && self.iter.never_fails()
    }

    fn is_valid(&self) -> (r: bool)
        ensures
            r == (self.remaining().len() > 0),
    {
        !self.has_errored && self.iter.is_valid()
    }

    fn key(&self) -> (r: &[u8])
        ensures
            r@ == self.remaining()[0].0,
    {
        self.iter.key()
    }

    fn value(&self) -> (r: &[u8])
        ensures
            r@ == self.remaining()[0].1,
    {
        self.iter.value()
    }

    fn next(&mut self) -> (r: Result<(), Error>)
        ensures
            r is Ok && old(self).remaining().len() > 0 ==> final(self).inv() && final(self).remaining() == old(self).remaining().skip(1),
            r is Ok && old(self).remaining().len() == 0 ==> final(self).inv() && final(self).remaining().len() == 0,
            old(self).has_errored ==> r == Result::<(), Error>::Err(Error::Tainted) && final(self).has_errored,
            !old(self).has_errored && old(self).remaining().len() == 0 ==> r is Ok && *final(self) == *old(self),
            r is Err ==> final(self).has_errored,
    {
        if self.has_errored {
            return Err(Error::Tainted);
        }
        if self.iter.is_valid() {
            let res = self.iter.next();
            if res.is_err() {
                self.has_errored = true;
                return res;
            }
        }
        Ok(())
    }
}

/// Tombstone filtering is exact: a reader observes an entry if and only if
/// the merged stream delivers it with a non-empty value. A key whose most
/// recent version is a tombstone is absent; one that was re-written is
/// present with the new value.
pub proof fn lemma_live_entries_exact(s: Seq<(Seq<u8>, Seq<u8>)>, e: (Seq<u8>, Seq<u8>))
    ensures
        live_entries(s).contains(e) <==> s.contains(e) && e.1.len() > 0,
    decreases s.len(),
{
    if s.len() > 0 {
        lemma_live_entries_exact(s.skip(1), e);
        if live_entries(s).contains(e) {
            let w = choose|w: int| 0 <= w < live_entries(s).len() && live_entries(s)[w] == e;
            if s[0].1.len() > 0 {
                if w == 0 {
                    assert(s[0] == e);
                    assert(s.contains(e)) by {
                        assert(s[0] == e);
                    }
                } else {
                    assert(live_entries(s.skip(1))[w - 1] == e);
                    assert(live_entries(s.skip(1)).contains(e)) by {
                        assert(live_entries(s.skip(1))[w - 1] == e);
                    }
                    let u = choose|u: int| 0 <= u < s.skip(1).len() && s.skip(1)[u] == e;
                    assert(s.contains(e)) by {
                        assert(s[u + 1] == e);
                    }
                }
            } else {
                assert(live_entries(s.skip(1)).contains(e)) by {
                    assert(live_entries(s.skip(1))[w] == e);
                }
                let u = choose|u: int| 0 <= u < s.skip(1).len() && s.skip(1)[u] == e;
                assert(s.contains(e)) by {
                    assert(s[u + 1] == e);
                }
            }
        }
        if s.contains(e) && e.1.len() > 0 {
            let u = choose|u: int| 0 <= u < s.len() && s[u] == e;
            if u == 0 {
                assert(s[0].1.len() > 0);
                assert(live_entries(s).contains(e)) by {
                    assert(live_entries(s)[0] == e);
                }
            } else {
                assert(s.skip(1).contains(e)) by {
                    assert(s.skip(1)[u - 1] == e);
                }
                let w = choose|w: int|
                    0 <= w < live_entries(s.skip(1)).len() && live_entries(s.skip(1))[w] == e;
                if s[0].1.len() > 0 {
                    assert(live_entries(s).contains(e)) by {
                        assert(live_entries(s)[w + 1] == e);
                    }
                } else {
                    assert(live_entries(s).contains(e)) by {
                        assert(live_entries(s)[w] == e);
                    }
                }
            }
        }
    }
}

/// Filtering keeps the order: the live entries of a strictly ascending
/// stream are strictly ascending.
pub proof fn lemma_live_entries_sorted(s: Seq<(Seq<u8>, Seq<u8>)>)
    requires
        crate::iterator::sorted_strict(s),
    ensures
        crate::iterator::sorted_strict(live_entries(s)),
        forall|t: int|
            0 <= t < live_entries(s).len() ==> exists|u: int|
                0 <= u < s.len() && s[u] == #[trigger] live_entries(s)[t],
    decreases s.len(),
{
    if s.len() > 0 {
        let rest = s.skip(1);
        assert forall|a: int, b: int|
            0 <= a < b < rest.len() implies #[trigger] crate::key::lex_lt(
            rest[a].0,
            rest[b].0,
        ) by {
            assert(rest[a] == s[a + 1]);
            assert(rest[b] == s[b + 1]);
        }
        lemma_live_entries_sorted(rest);
        assert forall|t: int|
            0 <= t < live_entries(s).len() implies exists|u: int|
            0 <= u < s.len() && s[u] == #[trigger] live_entries(s)[t] by {
            if s[0].1.len() > 0 {
                if t == 0 {
                    assert(s[0] == live_entries(s)[0]);
                } else {
                    assert(live_entries(s)[t] == live_entries(rest)[t - 1]);
                    let u = choose|u: int| 0 <= u < rest.len() && rest[u] == live_entries(rest)[t - 1];
                    assert(s[u + 1] == live_entries(s)[t]);
                }
            } else {
                assert(live_entries(s)[t] == live_entries(rest)[t]);
                let u = choose|u: int| 0 <= u < rest.len() && rest[u] == live_entries(rest)[t];
                assert(s[u + 1] == live_entries(s)[t]);
            }
        }
        assert forall|t1: int, t2: int|
            0 <= t1 < t2 < live_entries(s).len() implies #[trigger] crate::key::lex_lt(
            live_entries(s)[t1].0,
            live_entries(s)[t2].0,
        ) by {
            if s[0].1.len() > 0 {
                assert(live_entries(s)[t2] == live_entries(rest)[t2 - 1]);
                let u2 = choose|u: int| 0 <= u < rest.len() && rest[u] == live_entries(rest)[t2 - 1];
                if t1 == 0 {
                    assert(crate::key::lex_lt(s[0].0, s[u2 + 1].0));
                } else {
                    assert(live_entries(s)[t1] == live_entries(rest)[t1 - 1]);
                }
            }
        }
    }
}


} // verus!
