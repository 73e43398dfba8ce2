use vstd::prelude::*;

pub mod merge_iterator;

verus! {

use crate::Error;
use crate::key::lex_lt;

/// A stream of key/value entries is strictly ascending in key, so it holds
/// no duplicate keys.
pub open spec fn sorted_strict(s: Seq<(Seq<u8>, Seq<u8>)>) -> bool {
    forall|i: int, j: int| 0 <= i < j < s.len() ==> lex_lt(s[i].0, s[j].0)
}

/// A cursor over a sorted run of key/value entries. `remaining()` is the
/// sequence of entries still to be delivered, the current one first; the
/// cursor is valid while that sequence is non-empty.
pub trait StorageIterator: Sized {
    spec fn inv(&self) -> bool;

    spec fn remaining(&self) -> Seq<(Seq<u8>, Seq<u8>)>;

    /// Whether `next` is guaranteed to succeed on this cursor and every
    /// cursor it steps to; a cursor backed by memory alone never fails.
    spec fn never_fails(&self) -> bool;

    fn is_valid(&self) -> (r: bool)
        requires
            self.inv(),
        ensures
            r == (self.remaining().len() > 0),
    ;

    fn key(&self) -> (r: &[u8])
        requires
            self.inv(),
            self.remaining().len() > 0,
        ensures
            r@ == self.remaining()[0].0,
    ;

    fn value(&self) -> (r: &[u8])
        requires
            self.inv(),
            self.remaining().len() > 0,
        ensures
            r@ == self.remaining()[0].1,
    ;

    /// Steps past the current entry; past the end it is a no-op. On an
    /// error the cursor is left in an unspecified state and must not be
    /// used again.
    fn next(&mut self) -> (r: Result<(), Error>)
        requires
            old(self).inv(),
        ensures
            r is Ok && old(self).remaining().len() > 0 ==> final(self).inv() && final(self).remaining() == old(self).remaining().skip(1),
            r is Ok && old(self).remaining().len() == 0 ==> final(self).inv() && final(self).remaining().len() == 0,
            old(self).never_fails() ==> r is Ok && final(self).never_fails(),
    ;

    fn num_active_iterators(&self) -> usize {
        1
    }
}

} // verus!
