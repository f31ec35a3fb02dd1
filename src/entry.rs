//! Key/value entries and the ordered sequences that leaves hold.

use vstd::prelude::*;

verus! {

/// A key/value pair, the unit stored in a leaf. Entries are ordered by key alone.
#[derive(Debug)]
pub struct Entry<V> {
    pub key: u64,
    pub value: V,
}

impl<V> Entry<V> {
    pub fn new(key: u64, value: V) -> (r: Entry<V>)
        ensures
            r.key == key,
            r.value == value,
    {
        Entry { key, value }
    }
}

/// Two entries are equal when their keys are: the value is payload.
impl<V> PartialEq for Entry<V> {
    fn eq(&self, other: &Entry<V>) -> (r: bool) {
        self.key == other.key
    }
}

impl<V> vstd::std_specs::cmp::PartialEqSpecImpl for Entry<V> {
    open spec fn obeys_eq_spec() -> bool {
        true
    }

    open spec fn eq_spec(&self, other: &Entry<V>) -> bool {
        self.key == other.key
    }
}

/// The keys of `s` ascend strictly.
pub open spec fn sorted<V>(s: Seq<Entry<V>>) -> bool {
    forall|i: int, j: int| 0 <= i < j < s.len() ==> s[i].key < s[j].key
}

/// Some entry of `s` has key `k`.
pub open spec fn has_key<V>(s: Seq<Entry<V>>, k: u64) -> bool {
    exists|i: int| 0 <= i < s.len() && s[i].key == k
}

/// Every key of `s` is below `k`.
pub open spec fn all_below<V>(s: Seq<Entry<V>>, k: u64) -> bool {
    forall|i: int| 0 <= i < s.len() ==> s[i].key < k
}

/// Every key of `s` is at least `k`.
pub open spec fn all_at_least<V>(s: Seq<Entry<V>>, k: u64) -> bool {
    forall|i: int| 0 <= i < s.len() ==> k <= s[i].key
}

/// The sorted sequence `s` with `e` placed by its key: an entry with the same
/// key is replaced, otherwise `e` goes in between its neighbours.
pub open spec fn put<V>(s: Seq<Entry<V>>, e: Entry<V>) -> Seq<Entry<V>>
    decreases s.len(),
{
    if s.len() == 0 {
        seq![e]
    } else if e.key < s[0].key {
        seq![e] + s
    } else if e.key == s[0].key {
        seq![e] + s.drop_first()
    } else {
        seq![s[0]] + put(s.drop_first(), e)
    }
}

/// What an insert does with a key that the tree already holds. A tree holds each key
/// at most once: leaves ascend strictly and separators bound their children strictly,
/// so a second entry under one key has no place.
#[derive(Clone, Copy, Debug, PartialEq, Eq, Structural)]
pub enum DuplicatePolicy {
    /// The insert fails and the tree is left as it was.
    Reject,
    /// The new entry takes the place of the old one.
    Overwrite,
}

/// Why an insert failed.
#[derive(Clone, Copy, Debug, PartialEq, Eq, Structural)]
pub enum InsertError {
    /// The key is already present and the policy is `Reject`.
    DuplicateKey,
}

/// Every key of `s` is above `k`.
pub open spec fn all_above<V>(s: Seq<Entry<V>>, k: u64) -> bool {
    forall|i: int| 0 <= i < s.len() ==> k < s[i].key
}

/// Placing `e` after a prefix of smaller keys leaves that prefix in front.
pub proof fn lemma_put_after_prefix<V>(p: Seq<Entry<V>>, x: Seq<Entry<V>>, e: Entry<V>)
    requires
        all_below(p, e.key),
    ensures
        put(p + x, e) == p + put(x, e),
    decreases p.len(),
{
    if p.len() == 0 {
        assert(p + x =~= x);
        assert(p + put(x, e) =~= put(x, e));
    } else {
        assert((p + x)[0] == p[0]);
        assert((p + x).drop_first() =~= p.drop_first() + x);
        lemma_put_after_prefix(p.drop_first(), x, e);
        assert(seq![p[0]] + (p.drop_first() + put(x, e)) =~= p + put(x, e));
    }
}

/// Placing `e` before a suffix of larger keys leaves that suffix behind.
pub proof fn lemma_put_before_suffix<V>(x: Seq<Entry<V>>, s: Seq<Entry<V>>, e: Entry<V>)
    requires
        all_above(s, e.key),
    ensures
        put(x + s, e) == put(x, e) + s,
    decreases x.len(),
{
    if x.len() == 0 {
        assert(x + s =~= s);
        if s.len() == 0 {
            assert(put(x, e) + s =~= seq![e]);
        } else {
            assert(put(x, e) + s =~= seq![e] + s);
        }
    } else {
        assert((x + s)[0] == x[0]);
        assert((x + s).drop_first() =~= x.drop_first() + s);
        lemma_put_before_suffix(x.drop_first(), s, e);
        if e.key < x[0].key {
            assert(seq![e] + (x + s) =~= (seq![e] + x) + s);
        } else if e.key == x[0].key {
            assert(seq![e] + (x.drop_first() + s) =~= (seq![e] + x.drop_first()) + s);
        } else {
            assert(seq![x[0]] + (put(x.drop_first(), e) + s) =~= (seq![x[0]] + put(
                x.drop_first(),
                e,
            )) + s);
        }
    }
}

/// An upper bound that holds of `s` and of `e` holds of `put(s, e)`.
pub proof fn lemma_put_below<V>(s: Seq<Entry<V>>, e: Entry<V>, b: u64)
    requires
        all_below(s, b),
        e.key < b,
    ensures
        all_below(put(s, e), b),
    decreases s.len(),
{
    if s.len() > 0 && e.key > s[0].key {
        lemma_put_below(s.drop_first(), e, b);
    }
}

/// A lower bound that holds of `s` and of `e` holds of `put(s, e)`.
pub proof fn lemma_put_at_least<V>(s: Seq<Entry<V>>, e: Entry<V>, b: u64)
    requires
        all_at_least(s, b),
        b <= e.key,
    ensures
        all_at_least(put(s, e), b),
    decreases s.len(),
{
    if s.len() > 0 && e.key > s[0].key {
        lemma_put_at_least(s.drop_first(), e, b);
    }
}

/// Placing an entry keeps a sorted sequence sorted.
pub proof fn lemma_put_sorted<V>(s: Seq<Entry<V>>, e: Entry<V>)
    requires
        sorted(s),
    ensures
        sorted(put(s, e)),
        put(s, e).len() == if has_key(s, e.key) { s.len() } else { s.len() + 1 },
        put(s, e).len() >= 1,
    decreases s.len(),
{
    if s.len() == 0 {
    } else if e.key < s[0].key {
        assert(!has_key(s, e.key));
    } else if e.key == s[0].key {
        assert(has_key(s, e.key));
    } else {
        let t = s.drop_first();
        lemma_put_sorted(t, e);
        lemma_put_at_least(t, e, (s[0].key + 1) as u64);
        if has_key(s, e.key) {
            let j = choose|j: int| 0 <= j < s.len() && s[j].key == e.key;
            assert(t[j - 1].key == e.key);
        }
        if has_key(t, e.key) {
            let j = choose|j: int| 0 <= j < t.len() && t[j].key == e.key;
            assert(s[j + 1].key == e.key);
        }
    }
}

/// Between a prefix of smaller keys and a suffix of larger ones, a key can only be found
/// in the middle part.
pub proof fn lemma_has_key_middle<V>(p: Seq<Entry<V>>, x: Seq<Entry<V>>, s: Seq<Entry<V>>, k: u64)
    requires
        all_below(p, k),
        all_above(s, k),
    ensures
        has_key(p + x + s, k) == has_key(x, k),
{
    let t = p + x + s;
    if has_key(t, k) {
        let j = choose|j: int| 0 <= j < t.len() && t[j].key == k;
        if j < p.len() {
            assert(p[j].key < k);
        } else if j >= p.len() + x.len() {
            assert(s[j - p.len() - x.len()].key > k);
        } else {
            assert(x[j - p.len()].key == k);
        }
    }
    if has_key(x, k) {
        let j = choose|j: int| 0 <= j < x.len() && x[j].key == k;
        assert(t[j + p.len()].key == k);
    }
}

} // verus!
