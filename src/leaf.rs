//! Leaf nodes: a bounded, strictly ascending run of entries.

use vstd::prelude::*;
use crate::entry::{
    Entry, DuplicatePolicy, InsertError, sorted, has_key, put, all_below, all_at_least,
    lemma_put_after_prefix, lemma_put_sorted,
};

verus! {

/// A leaf: at most `degree - 1` entries, ascending by key.
#[derive(Debug, PartialEq)]
pub struct LeafNode<V> {
    pub degree: usize,
    pub entries: Vec<Entry<V>>,
}

/// How many of `n` items the left half keeps when a node splits: the upper half of an
/// odd count goes left.
pub open spec fn split_point(n: int) -> int {
    (n + 1) / 2
}

impl<V> LeafNode<V> {
    /// Entries ascend strictly, and there is room for one more before a split.
    pub open spec fn wf(self) -> bool {
        &&& 2 <= self.degree
        &&& self.entries@.len() < self.degree
        &&& sorted(self.entries@)
    }

    /// An empty leaf.
    pub fn new(degree: usize) -> (r: LeafNode<V>)
        ensures
            r.degree == degree,
            r.entries@.len() == 0,
    {
        LeafNode { degree, entries: Vec::new() }
    }

    /// A leaf that holds `entry` alone.
    pub fn new_from_entry(degree: usize, entry: Entry<V>) -> (r: LeafNode<V>)
        ensures
            r.degree == degree,
            r.entries@ == seq![entry],
    {
        let mut entries = Vec::new();
        entries.push(entry);
        LeafNode { degree, entries }
    }

    /// The number of entries whose key is below `key`, found by binary search.
    pub fn position_of(&self, key: u64) -> (r: usize)
        requires
            sorted(self.entries@),
        ensures
            r <= self.entries@.len(),
            all_below(self.entries@.subrange(0, r as int), key),
            all_at_least(self.entries@.subrange(r as int, self.entries@.len() as int), key),
    {
        let mut lo: usize = 0;
        let mut hi: usize = self.entries.len();
        while lo < hi
            invariant
                lo <= hi <= self.entries@.len(),
                sorted(self.entries@),
                forall|i: int| 0 <= i < lo ==> self.entries@[i].key < key,
                forall|i: int| hi <= i < self.entries@.len() ==> key <= self.entries@[i].key,
            decreases hi - lo,
        {
            let mid = lo + (hi - lo) / 2;
            if self.entries[mid].key < key {
                lo = mid + 1;
            } else {
                hi = mid;
            }
        }
        lo
    }

    /// Moves the upper half of the entries into a new leaf and returns it: the left keeps
    /// `split_point(n)` of the `n` entries.
    pub fn split(&mut self) -> (right: LeafNode<V>)
        ensures
            final(self).degree == old(self).degree,
            right.degree == old(self).degree,
            final(self).entries@ == old(self).entries@.subrange(
                0,
                split_point(old(self).entries@.len() as int),
            ),
            right.entries@ == old(self).entries@.subrange(
                split_point(old(self).entries@.len() as int),
                old(self).entries@.len() as int,
            ),
    {
        let n = self.entries.len();
        let m = n / 2 + n % 2;
        let rest = self.entries.split_off(m);
        LeafNode { degree: self.degree, entries: rest }
    }

    /// Places `entry` by its key. Once the leaf reaches `degree` entries it splits, and
    /// the new right half is returned.
    pub fn insert(&mut self, entry: Entry<V>, policy: DuplicatePolicy) -> (r: Result<
        Option<LeafNode<V>>,
        InsertError,
    >)
        requires
            old(self).wf(),
        ensures
            final(self).degree == old(self).degree,
            (r is Err) == (policy == DuplicatePolicy::Reject && has_key(
                old(self).entries@,
                entry.key,
            )),
            r is Err ==> *final(self) == *old(self),
            r is Ok ==> final(self).wf(),
            r == Ok::<Option<LeafNode<V>>, InsertError>(None) ==> final(self).entries@ == put(
                old(self).entries@,
                entry,
            ),
            r is Ok ==> (r->Ok_0 is Some <==> put(old(self).entries@, entry).len() == old(
                self,
            ).degree),
            r matches Ok(Some(right)) ==> {
                let s = put(old(self).entries@, entry);
                &&& right.wf()
                &&& right.degree == old(self).degree
                &&& final(self).entries@ == s.subrange(0, split_point(s.len() as int))
                &&& right.entries@ == s.subrange(split_point(s.len() as int), s.len() as int)
            },
    {
        let ghost s0 = self.entries@;
        let ghost e = entry;
        let pos = self.position_of(entry.key);
        proof {
            let p = s0.subrange(0, pos as int);
            let x = s0.subrange(pos as int, s0.len() as int);
            assert(s0 =~= p + x);
            lemma_put_after_prefix(p, x, e);
            lemma_put_sorted(s0, e);
        }
        if pos < self.entries.len() && self.entries[pos].key == entry.key {
            if policy == DuplicatePolicy::Reject {
                return Err(InsertError::DuplicateKey);
            }
            self.entries.remove(pos);
            self.entries.insert(pos, entry);
            proof {
                let x = s0.subrange(pos as int, s0.len() as int);
                assert(x.drop_first() =~= s0.subrange(pos + 1, s0.len() as int));
                assert(self.entries@ =~= s0.subrange(0, pos as int) + (seq![e] + x.drop_first()));
            }
        } else {
            proof {
                assert(!has_key(s0, e.key)) by {
                    if has_key(s0, e.key) {
                        let j = choose|j: int| 0 <= j < s0.len() && s0[j].key == e.key;
                        if j >= pos {
                            assert(s0[pos as int].key <= s0[j].key);
                        }
                    }
                }
                let x = s0.subrange(pos as int, s0.len() as int);
                assert(x.len() > 0 ==> x[0].key > e.key);
                assert(self.entries@.insert(pos as int, e) =~= s0.subrange(0, pos as int) + put(
                    x,
                    e,
                ));
            }
            self.entries.insert(pos, entry);
        }
        if self.entries.len() >= self.degree {
            let right = self.split();
            Ok(Some(right))
        } else {
            Ok(None)
        }
    }
}

} // verus!
