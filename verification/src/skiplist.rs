//! The abstract interfaces of the ordered index: what any skip list offers
//! its callers, phrased over an abstract key-to-payload association, and the
//! forward-cursor protocol over its key set.

use vstd::prelude::*;

verus! {

/// The ordered-index interface: insertion, membership lookup, and a count of
/// the entries below a key.
pub trait SkipList: Sized {
    /// The association the index currently stores.
    spec fn index_map(&self) -> Map<int, u64>;

    /// The implementation's structural invariant.
    spec fn inv(&self) -> bool;

    /// Inserts a key with its payload. An entry that compares equal to `key`
    /// is overwritten in place: the index is a sorted association, never a
    /// multiset.
    fn insert(&mut self, key: i64, value: u64)
        requires
            old(self).inv(),
        ensures
            final(self).inv(),
            final(self).index_map() == old(self).index_map().insert(key as int, value),
    ;

    /// True iff an entry that compares equal to `key` is stored.
    fn contains(&self, key: i64) -> (r: bool)
        requires
            self.inv(),
        ensures
            r == self.index_map().dom().contains(key as int),
    ;

    /// The number of entries whose key is strictly smaller than `key`.
    fn estimate_count(&self, key: i64) -> (r: u64)
        requires
            self.inv(),
        ensures
            r == Set::new(
                |k: int| self.index_map().dom().contains(k) && k < key as int,
            ).len(),
    ;
}

/// The forward-cursor protocol: a cursor is valid exactly when it stands at
/// a stored entry, moves only forward, and every positioning call lands on
/// the least key satisfying its bound or makes the cursor invalid.
pub trait SkipListIterator: Sized {
    /// The keys of the index the cursor ranges over.
    spec fn key_dom(&self) -> Set<int>;

    /// The cursor's invariant.
    spec fn inv(&self) -> bool;

    /// True when the cursor stands at a stored entry.
    spec fn cursor_valid(&self) -> bool;

    /// The key the cursor stands at, meaningful only when valid.
    spec fn cursor_key(&self) -> int;

    /// True iff the cursor is positioned at a valid entry.
    fn valid(&self) -> (r: bool)
        requires
            self.inv(),
        ensures
            r == self.cursor_valid(),
    ;

    /// The key at the current position. Requires a valid cursor.
    fn key(&self) -> (r: i64)
        requires
            self.inv(),
            self.cursor_valid(),
        ensures
            r as int == self.cursor_key(),
    ;

    /// Advances to the next entry in key order: the least stored key above
    /// the current one, or invalid when none follows. Requires a valid
    /// cursor.
    fn advance(&mut self)
        requires
            old(self).inv(),
            old(self).cursor_valid(),
        ensures
            final(self).inv(),
            final(self).key_dom() == old(self).key_dom(),
            final(self).cursor_valid() <==> (exists|m: int|
                old(self).key_dom().contains(m) && m > old(self).cursor_key()),
            final(self).cursor_valid() ==> final(self).key_dom().contains(final(self).cursor_key())
                && final(self).cursor_key() > old(self).cursor_key(),
            final(self).cursor_valid() ==> forall|m: int|
                old(self).key_dom().contains(m) && m > old(self).cursor_key() ==> m >= final(self).cursor_key(),
    ;

    /// Advances to the first entry with a key at least `target`, or leaves
    /// the cursor invalid exactly when no stored key reaches the target.
    fn seek(&mut self, target: i64)
        requires
            old(self).inv(),
        ensures
            final(self).inv(),
            final(self).key_dom() == old(self).key_dom(),
            final(self).cursor_valid() <==> (exists|m: int|
                old(self).key_dom().contains(m) && m >= target as int),
            final(self).cursor_valid() ==> final(self).key_dom().contains(final(self).cursor_key())
                && final(self).cursor_key() >= target as int,
            final(self).cursor_valid() ==> forall|m: int|
                old(self).key_dom().contains(m) && m >= target as int ==> m >= final(self).cursor_key(),
    ;

    /// Positions at the first entry of the index; the cursor is valid
    /// afterwards iff the index is not empty.
    fn seek_to_first(&mut self)
        requires
            old(self).inv(),
        ensures
            final(self).inv(),
            final(self).key_dom() == old(self).key_dom(),
            final(self).cursor_valid() <==> old(self).key_dom() != Set::<int>::empty(),
            final(self).cursor_valid() ==> final(self).key_dom().contains(final(self).cursor_key()),
            final(self).cursor_valid() ==> forall|m: int|
                old(self).key_dom().contains(m) ==> m >= final(self).cursor_key(),
    ;
}

} // verus!
