//! Internal nodes, and the tagged union over leaves and internal nodes.

use vstd::prelude::*;
use crate::entry::{
    Entry, DuplicatePolicy, InsertError, sorted, has_key, put, all_below, all_at_least, all_above,
    lemma_put_after_prefix, lemma_put_before_suffix, lemma_put_below, lemma_put_at_least,
    lemma_put_sorted, lemma_has_key_middle,
};
use crate::leaf::{LeafNode, split_point};

verus! {

/// An internal node: `children.len() - 1` separator keys between up to `degree` children.
/// Every key under `children[i]` is below `separators[i]` and at least `separators[i - 1]`.
#[derive(Debug, PartialEq)]
pub struct InternalNode<V> {
    pub degree: usize,
    pub separators: Vec<u64>,
    pub children: Vec<Node<V>>,
}

/// A node of the tree: a leaf or an internal node.
#[derive(Debug, PartialEq)]
pub enum Node<V> {
    Leaf(LeafNode<V>),
    Internal(InternalNode<V>),
}

/// The entries under the first `k` nodes of `cs`, left to right.
pub open spec fn concat_upto<V>(cs: Seq<Node<V>>, k: nat) -> Seq<Entry<V>>
    decreases cs, k,
{
    if k == 0 || k > cs.len() {
        seq![]
    } else {
        concat_upto(cs, (k - 1) as nat) + cs[k - 1].items()
    }
}

/// The first `k` nodes of `cs` are well-formed.
pub open spec fn all_wf<V>(cs: Seq<Node<V>>, k: nat) -> bool
    decreases cs, k,
{
    if k == 0 || k > cs.len() {
        true
    } else {
        all_wf(cs, (k - 1) as nat) && cs[k - 1].wf()
    }
}

/// `all_wf` says of each of the first `k` nodes that it is well-formed.
pub proof fn lemma_all_wf<V>(cs: Seq<Node<V>>, k: nat)
    requires
        k <= cs.len(),
    ensures
        all_wf(cs, k) <==> forall|i: int| 0 <= i < k ==> #[trigger] cs[i].wf(),
    decreases k,
{
    if k > 0 {
        lemma_all_wf(cs, (k - 1) as nat);
        assert(all_wf(cs, k) == (all_wf(cs, (k - 1) as nat) && cs[k - 1].wf()));
        if forall|i: int| 0 <= i < k ==> #[trigger] cs[i].wf() {
            assert(cs[k - 1].wf());
        }
    }
}

/// The entries under all nodes of `cs`, left to right.
pub open spec fn concat<V>(cs: Seq<Node<V>>) -> Seq<Entry<V>> {
    concat_upto(cs, cs.len())
}

/// The child that a key descends to: the index of the first separator above `k`, or
/// the last child when there is none.
pub open spec fn child_route(ss: Seq<u64>, k: u64) -> int
    decreases ss.len(),
{
    if ss.len() == 0 || k < ss[0] {
        0
    } else {
        1 + child_route(ss.drop_first(), k)
    }
}

proof fn lemma_child_route(ss: Seq<u64>, k: u64, r: int)
    requires
        0 <= r <= ss.len(),
        forall|j: int| 0 <= j < r ==> ss[j] <= k,
        r < ss.len() ==> k < ss[r],
    ensures
        child_route(ss, k) == r,
    decreases r,
{
    if r > 0 {
        lemma_child_route(ss.drop_first(), k, r - 1);
    }
}

impl<V> Node<V> {
    /// The entries of the leaves under this node, left to right.
    pub open spec fn items(self) -> Seq<Entry<V>>
        decreases self, 0nat,
    {
        match self {
            Node::Leaf(l) => l.entries@,
            Node::Internal(n) => concat_upto(n.children@, n.children@.len()),
        }
    }

    pub open spec fn degree(self) -> usize {
        match self {
            Node::Leaf(l) => l.degree,
            Node::Internal(n) => n.degree,
        }
    }

    /// The number of levels from this node down to its leaves; a leaf has height 1.
    pub open spec fn height(self) -> nat
        decreases self,
    {
        match self {
            Node::Leaf(_) => 1,
            Node::Internal(n) => if n.children@.len() == 0 {
                1
            } else {
                1 + n.children@[0].height()
            },
        }
    }

    /// The node has no room left: one more entry or child would make it split.
    pub open spec fn is_full(self) -> bool {
        match self {
            Node::Leaf(l) => l.entries@.len() + 1 == l.degree,
            Node::Internal(n) => n.children@.len() == n.degree,
        }
    }

    /// The shape that inserting `e` into this node gives: `after` is the node and `sib`
    /// the sibling split off, if any. A leaf splits once it reaches `degree` entries, and
    /// keeps `split_point` of them. An internal node replaces the child that `e.key`
    /// routes to by that child's own result, with a split-off sibling right after it under
    /// its smallest key; with more than `degree` children it keeps `split_point` of them
    /// and the separator between the halves leaves both.
    pub open spec fn insert_shape(self, after: Node<V>, sib: Option<Node<V>>, e: Entry<V>) -> bool
        decreases self,
    {
        match self {
            Node::Leaf(l) => {
                let s = put(l.entries@, e);
                let m = split_point(s.len() as int);
                &&& after matches Node::Leaf(a) && a.degree == l.degree
                &&& if s.len() < l.degree {
                    after->Leaf_0.entries@ == s && sib is None
                } else {
                    &&& after->Leaf_0.entries@ == s.subrange(0, m)
                    &&& sib matches Some(Node::Leaf(x)) && x.degree == l.degree
                    &&& sib->Some_0->Leaf_0.entries@ == s.subrange(m, s.len() as int)
                }
            },
            Node::Internal(n) => {
                let cs = n.children@;
                let ss = n.separators@;
                let i = child_route(ss, e.key);
                &&& after matches Node::Internal(a) && a.degree == n.degree
                &&& sib matches Some(x) ==> x matches Node::Internal(y) && y.degree == n.degree
                &&& 0 <= i < cs.len()
                &&& {
                    let a = after->Internal_0;
                    let all_c = match sib {
                        Some(x) => a.children@ + x->Internal_0.children@,
                        None => a.children@,
                    };
                    if all_c.len() == cs.len() {
                        &&& sib is None
                        &&& all_c == cs.update(i, all_c[i])
                        &&& a.separators@ == ss
                        &&& cs[i].insert_shape(all_c[i], None, e)
                    } else {
                        let all_s = ss.insert(i, all_c[i + 1].items()[0].key);
                        let m = split_point(all_c.len() as int);
                        &&& all_c.len() == cs.len() + 1
                        &&& all_c == cs.subrange(0, i) + seq![all_c[i], all_c[i + 1]] + cs.subrange(
                            i + 1,
                            cs.len() as int,
                        )
                        &&& cs[i].insert_shape(all_c[i], Some(all_c[i + 1]), e)
                        &&& if all_c.len() <= n.degree {
                            sib is None && a.separators@ == all_s
                        } else {
                            &&& sib is Some
                            &&& a.children@.len() == m
                            &&& a.separators@ == all_s.subrange(0, m - 1)
                            &&& sib->Some_0->Internal_0.separators@ == all_s.subrange(
                                m,
                                all_s.len() as int,
                            )
                        }
                    }
                }
            },
        }
    }

    /// Leaves are non-empty and sorted, no node holds more than its degree allows, the
    /// separators bound their children, and all leaves lie at the same depth.
    pub open spec fn wf(self) -> bool
        decreases self, 0nat,
    {
        match self {
            Node::Leaf(l) => l.wf() && l.entries@.len() > 0,
            Node::Internal(n) => {
                &&& n.ordered()
                &&& n.children@.len() <= n.degree
                &&& all_wf(n.children@, n.children@.len())
            },
        }
    }
}

impl<V> InternalNode<V> {
    pub open spec fn items(self) -> Seq<Entry<V>> {
        concat(self.children@)
    }

    pub open spec fn wf(self) -> bool {
        Node::Internal(self).wf()
    }

    /// Everything that well-formedness asks of the node itself, but the bound on the
    /// number of children.
    pub open spec fn ordered(self) -> bool {
        let cs = self.children@;
        let ss = self.separators@;
        &&& 2 <= self.degree
        &&& 1 <= cs.len()
        &&& ss.len() + 1 == cs.len()
        &&& forall|i: int, j: int| 0 <= i < j < ss.len() ==> ss[i] < ss[j]
        &&& forall|i: int|
            0 <= i < cs.len() ==> (#[trigger] cs[i]).degree() == self.degree && cs[i].height()
                == cs[0].height()
        &&& forall|i: int|
            0 <= i < ss.len() ==> all_below(#[trigger] cs[i].items(), ss[i]) && all_at_least(
                cs[i + 1].items(),
                ss[i],
            )
    }
}

/// Only the first `k` nodes count towards `concat_upto(cs, k)`.
proof fn lemma_concat_upto_prefix<V>(a: Seq<Node<V>>, b: Seq<Node<V>>, k: nat)
    requires
        k <= a.len(),
    ensures
        concat_upto(a + b, k) == concat_upto(a, k),
    decreases k,
{
    if k > 0 {
        lemma_concat_upto_prefix(a, b, (k - 1) as nat);
        assert((a + b)[k - 1] == a[k - 1]);
    }
}

proof fn lemma_concat_upto_append<V>(a: Seq<Node<V>>, b: Seq<Node<V>>, j: nat)
    requires
        j <= b.len(),
    ensures
        concat_upto(a + b, a.len() + j) == concat(a) + concat_upto(b, j),
    decreases j,
{
    if j == 0 {
        lemma_concat_upto_prefix(a, b, a.len());
        assert(concat(a) + concat_upto(b, 0) =~= concat(a));
    } else {
        lemma_concat_upto_append(a, b, (j - 1) as nat);
        assert((a + b)[a.len() + j - 1] == b[j - 1]);
        assert(concat_upto(a + b, a.len() + j) == concat_upto(a + b, (a.len() + j - 1) as nat) + (a
            + b)[a.len() + j - 1].items());
        assert(concat(a) + concat_upto(b, j) =~= concat(a) + concat_upto(b, (j - 1) as nat) + b[j
            - 1].items());
    }
}

/// The entries under `a + b` are those under `a`, then those under `b`.
pub proof fn lemma_concat_append<V>(a: Seq<Node<V>>, b: Seq<Node<V>>)
    ensures
        concat(a + b) == concat(a) + concat(b),
{
    lemma_concat_upto_append(a, b, b.len());
}

pub proof fn lemma_concat_one<V>(c: Node<V>)
    ensures
        concat(seq![c]) == c.items(),
{
    assert(concat(seq![c]) == concat_upto(seq![c], 0) + c.items());
    assert(seq![] + c.items() =~= c.items());
}

/// The entries under `cs` split around the node at `i`.
pub proof fn lemma_concat_split<V>(cs: Seq<Node<V>>, i: int)
    requires
        0 <= i < cs.len(),
    ensures
        concat(cs) == concat(cs.subrange(0, i)) + cs[i].items() + concat(
            cs.subrange(i + 1, cs.len() as int),
        ),
{
    let p = cs.subrange(0, i);
    let s = cs.subrange(i + 1, cs.len() as int);
    assert(cs =~= p + (seq![cs[i]] + s));
    lemma_concat_append(p, seq![cs[i]] + s);
    lemma_concat_append(seq![cs[i]], s);
    lemma_concat_one(cs[i]);
    assert(concat(p) + (cs[i].items() + concat(s)) =~= concat(p) + cs[i].items() + concat(s));
}

/// An upper bound that holds under each of the first `k` nodes holds of their entries
/// together.
proof fn lemma_concat_below<V>(cs: Seq<Node<V>>, k: nat, hi: u64)
    requires
        k <= cs.len(),
        forall|j: int| 0 <= j < k ==> all_below(#[trigger] cs[j].items(), hi),
    ensures
        all_below(concat_upto(cs, k), hi),
    decreases k,
{
    if k > 0 {
        lemma_concat_below(cs, (k - 1) as nat, hi);
        assert(all_below(cs[k - 1].items(), hi));
    }
}

/// A lower bound that holds under each of the first `k` nodes holds of their entries
/// together.
proof fn lemma_concat_at_least<V>(cs: Seq<Node<V>>, k: nat, lo: u64)
    requires
        k <= cs.len(),
        forall|j: int| 0 <= j < k ==> all_at_least(#[trigger] cs[j].items(), lo),
    ensures
        all_at_least(concat_upto(cs, k), lo),
    decreases k,
{
    if k > 0 {
        lemma_concat_at_least(cs, (k - 1) as nat, lo);
        assert(all_at_least(cs[k - 1].items(), lo));
    }
}

/// All keys under a well-formed node ascend strictly, and there is at least one.
pub proof fn lemma_wf_items<V>(node: Node<V>)
    requires
        node.wf(),
    ensures
        sorted(node.items()),
        node.items().len() > 0,
    decreases node,
{
    if let Node::Internal(n) = node {
        let cs = n.children@;
        assert(n.ordered());
        lemma_all_wf(cs, cs.len());
        assert forall|j: int| 0 <= j < cs.len() implies sorted(#[trigger] cs[j].items())
            && cs[j].items().len() > 0 by {
            assert(cs[j].wf());
            lemma_wf_items(cs[j]);
        }
        n.lemma_concat_sorted(cs.len());
    }
}

impl<V> InternalNode<V> {
    proof fn lemma_concat_sorted(self, k: nat)
        requires
            self.ordered(),
            1 <= k <= self.children@.len(),
            forall|j: int|
                0 <= j < self.children@.len() ==> sorted(#[trigger] self.children@[j].items())
                    && self.children@[j].items().len() > 0,
        ensures
            sorted(concat_upto(self.children@, k)),
            concat_upto(self.children@, k).len() > 0,
            k < self.children@.len() ==> all_below(
                concat_upto(self.children@, k),
                self.separators@[k - 1],
            ),
        decreases k,
    {
        let cs = self.children@;
        let ss = self.separators@;
        if k == 1 {
            assert(concat_upto(cs, 1) =~= cs[0].items());
        } else {
            self.lemma_concat_sorted((k - 1) as nat);
            let a = concat_upto(cs, (k - 1) as nat);
            let b = cs[k - 1].items();
            assert(all_below(cs[k - 2].items(), ss[k - 2]));
            assert(all_at_least(cs[k - 1].items(), ss[k - 2]));
            assert(concat_upto(cs, k) == a + b);
            assert(sorted(a + b)) by {
                assert forall|x: int, y: int| 0 <= x < y < (a + b).len() implies (a + b)[x].key < (a
                    + b)[y].key by {
                    if y < a.len() {
                    } else if x >= a.len() {
                        assert(b[x - a.len()].key < b[y - a.len()].key);
                    } else {
                        assert(a[x].key < ss[k - 2]);
                        assert(ss[k - 2] <= b[y - a.len()].key);
                    }
                }
            }
            if k < cs.len() {
                assert(all_below(cs[k - 1].items(), ss[k - 1]));
                assert(ss[k - 2] < ss[k - 1]);
            }
        }
    }
}

impl<V> Node<V> {
    /// The smallest key under this node, found by following the first child down.
    pub fn min_key(&self) -> (r: u64)
        requires
            self.wf(),
        ensures
            r == self.items()[0].key,
        decreases self,
    {
        match self {
            Node::Leaf(l) => l.entries[0].key,
            Node::Internal(n) => {
                proof {
                    lemma_all_wf(n.children@, n.children@.len());
                    lemma_wf_items(n.children@[0]);
                    lemma_concat_split(n.children@, 0);
                    assert(concat(n.children@.subrange(0, 0)) =~= seq![]);
                }
                n.children[0].min_key()
            },
        }
    }
}

impl<V> InternalNode<V> {
    /// The first `m` children of an ordered node, with the separators between them, form
    /// an ordered node.
    proof fn lemma_lower_part(self, l: InternalNode<V>, m: int)
        requires
            self.ordered(),
            1 <= m <= self.children@.len(),
            l.degree == self.degree,
            l.children@ == self.children@.subrange(0, m),
            l.separators@ == self.separators@.subrange(0, m - 1),
        ensures
            l.ordered(),
            Node::Internal(l).height() == Node::Internal(self).height(),
    {
        let cs = self.children@;
        let ss = self.separators@;
        let lc = l.children@;
        assert forall|i: int| 0 <= i < m - 1 implies all_below(
            #[trigger] lc[i].items(),
            ss[i],
        ) && all_at_least(lc[i + 1].items(), ss[i]) by {
            assert(all_below(cs[i].items(), ss[i]));
        }
    }

    /// The children of an ordered node from `m` on, with the separators between them, form
    /// an ordered node.
    proof fn lemma_upper_part(self, r: InternalNode<V>, m: int)
        requires
            self.ordered(),
            1 <= m < self.children@.len(),
            r.degree == self.degree,
            r.children@ == self.children@.subrange(m, self.children@.len() as int),
            r.separators@ == self.separators@.subrange(m, self.separators@.len() as int),
        ensures
            r.ordered(),
            Node::Internal(r).height() == Node::Internal(self).height(),
    {
        let cs = self.children@;
        let ss = self.separators@;
        let rc = r.children@;
        let rs = r.separators@;
        assert forall|i: int| 0 <= i < rc.len() implies (#[trigger] rc[i]).degree()
            == self.degree && rc[i].height() == rc[0].height() by {
            assert(rc[i] == cs[i + m]);
            assert(cs[i + m].height() == cs[0].height());
        }
        assert forall|i: int| 0 <= i < rs.len() implies all_below(
            #[trigger] rc[i].items(),
            rs[i],
        ) && all_at_least(rc[i + 1].items(), rs[i]) by {
            assert(rc[i] == cs[i + m]);
            assert(rc[i + 1] == cs[i + m + 1]);
            assert(all_below(cs[i + m].items(), ss[i + m]));
        }
        assert(cs[m].height() == cs[0].height());
    }
}

impl<V> InternalNode<V> {
    /// The index of the child whose key range holds `key`: the number of separators that
    /// are at most `key`.
    pub fn child_index(&self, key: u64) -> (r: usize)
        requires
            self.ordered(),
        ensures
            r < self.children@.len(),
            r == child_route(self.separators@, key),
            forall|j: int| 0 <= j < r ==> self.separators@[j] <= key,
            forall|j: int| r <= j < self.separators@.len() ==> key < self.separators@[j],
    {
        let mut i: usize = 0;
        while i < self.separators.len() && self.separators[i] <= key
            invariant
                self.ordered(),
                i <= self.separators@.len(),
                forall|j: int| 0 <= j < i ==> self.separators@[j] <= key,
            decreases self.separators@.len() - i,
        {
            i = i + 1;
        }
        proof {
            lemma_child_route(self.separators@, key, i as int);
        }
        i
    }

    /// Moves the upper half of the children, and the separators between them, into a new
    /// node and returns it: the left keeps `split_point(n)` of the `n` children. The
    /// separator between the two halves leaves both.
    pub fn split(&mut self) -> (right: InternalNode<V>)
        requires
            old(self).ordered(),
            all_wf(old(self).children@, old(self).children@.len()),
            old(self).children@.len() >= 2,
        ensures
            ({
                let n = old(self).children@.len() as int;
                let m = split_point(n);
                &&& final(self).children@ == old(self).children@.subrange(0, m)
                &&& right.children@ == old(self).children@.subrange(m, n)
                &&& final(self).separators@ == old(self).separators@.subrange(0, m - 1)
                &&& right.separators@ == old(self).separators@.subrange(m, n - 1)
            }),
            final(self).degree == old(self).degree,
            right.degree == old(self).degree,
            final(self).ordered(),
            right.ordered(),
            all_wf(final(self).children@, final(self).children@.len()),
            all_wf(right.children@, right.children@.len()),
            final(self).items() + right.items() == old(self).items(),
            Node::Internal(*final(self)).height() == Node::Internal(*old(self)).height(),
            Node::Internal(right).height() == Node::Internal(*old(self)).height(),
    {
        let ghost o = *self;
        let ghost cs = self.children@;
        let ghost ss = self.separators@;
        let n = self.children.len();
        let m = n / 2 + n % 2;
        let right_children = self.children.split_off(m);
        let mut right_separators = self.separators.split_off(m - 1);
        right_separators.remove(0);
        let right = InternalNode {
            degree: self.degree,
            separators: right_separators,
            children: right_children,
        };
        proof {
            assert(right.separators@ =~= ss.subrange(m as int, n - 1));
            o.lemma_lower_part(*self, m as int);
            o.lemma_upper_part(right, m as int);
            lemma_all_wf(cs, cs.len());
            lemma_all_wf(self.children@, self.children@.len());
            lemma_all_wf(right.children@, right.children@.len());
            assert(cs =~= self.children@ + right.children@);
            lemma_concat_append(self.children@, right.children@);
        }
        right
    }

    /// A node over two adjacent subtrees of equal height: the separator is the smallest
    /// key of `right`.
    pub fn from_two_nodes(left: Node<V>, right: Node<V>) -> (r: InternalNode<V>)
        requires
            left.wf(),
            right.wf(),
            left.degree() == right.degree(),
            left.height() == right.height(),
            sorted(left.items() + right.items()),
        ensures
            r.wf(),
            r.degree == left.degree(),
            r.children@ == seq![left, right],
            r.separators@ == seq![right.items()[0].key],
            r.items() == left.items() + right.items(),
            Node::Internal(r).height() == left.height() + 1,
    {
        let sep = right.min_key();
        let degree = match &left {
            Node::Leaf(l) => l.degree,
            Node::Internal(n) => n.degree,
        };
        let mut separators = Vec::new();
        separators.push(sep);
        let mut children = Vec::new();
        children.push(left);
        children.push(right);
        let r = InternalNode { degree, separators, children };
        proof {
            let cs = r.children@;
            assert(cs =~= seq![left] + seq![right]);
            lemma_concat_append(seq![left], seq![right]);
            lemma_concat_one(left);
            lemma_concat_one(right);
            lemma_wf_items(left);
            lemma_wf_items(right);
            let t = left.items() + right.items();
            assert forall|x: int| 0 <= x < left.items().len() implies left.items()[x].key < sep by {
                assert(t[x] == left.items()[x]);
                assert(t[left.items().len() as int] == right.items()[0]);
            }
            assert(all_below(cs[0].items(), r.separators@[0]));
            lemma_all_wf(cs, 2);
        }
        r
    }

    /// The first internal node of a tree: the two halves of a split leaf root.
    pub fn from_two_leaf_nodes(left: LeafNode<V>, right: LeafNode<V>) -> (r: InternalNode<V>)
        requires
            Node::Leaf(left).wf(),
            Node::Leaf(right).wf(),
            left.degree == right.degree,
            sorted(left.entries@ + right.entries@),
        ensures
            r.wf(),
            r.degree == left.degree,
            r.children@ == seq![Node::Leaf(left), Node::Leaf(right)],
            r.separators@ == seq![right.entries@[0].key],
            r.items() == left.entries@ + right.entries@,
            Node::Internal(r).height() == 2,
    {
        InternalNode::from_two_nodes(Node::Leaf(left), Node::Leaf(right))
    }
}

impl<V> Node<V> {
    /// Inserts `entry` under this node. A node that overflows splits, keeps the lower
    /// half, and returns the upper half as a new sibling of the same height.
    pub fn insert(&mut self, entry: Entry<V>, policy: DuplicatePolicy) -> (r: Result<
        Option<Node<V>>,
        InsertError,
    >)
        requires
            old(self).wf(),
        ensures
            final(self).wf(),
            final(self).degree() == old(self).degree(),
            final(self).height() == old(self).height(),
            (r is Err) == (policy == DuplicatePolicy::Reject && has_key(
                old(self).items(),
                entry.key,
            )),
            r is Err ==> *final(self) == *old(self),
            r == Ok::<Option<Node<V>>, InsertError>(None) ==> final(self).items() == put(
                old(self).items(),
                entry,
            ),
            r matches Ok(Some(sibling)) ==> {
                &&& sibling.wf()
                &&& sibling.degree() == old(self).degree()
                &&& sibling.height() == old(self).height()
                &&& final(self).items() + sibling.items() == put(old(self).items(), entry)
                &&& old(self).is_full()
            },
            r matches Ok(sibling) ==> old(self).insert_shape(*final(self), sibling, entry),
        decreases old(self).height(), 1nat,
    {
        match self {
            Node::Leaf(l) => {
                proof {
                    lemma_put_sorted(l.entries@, entry);
                }
                match l.insert(entry, policy) {
                    Err(e) => Err(e),
                    Ok(None) => Ok(None),
                    Ok(Some(right)) => {
                        proof {
                            let s = put(old(self).items(), entry);
                            assert(s =~= s.subrange(0, split_point(s.len() as int)) + s.subrange(
                                split_point(s.len() as int),
                                s.len() as int,
                            ));
                        }
                        Ok(Some(Node::Leaf(right)))
                    },
                }
            },
            Node::Internal(n) => match n.insert(entry, policy) {
                Err(e) => Err(e),
                Ok(None) => Ok(None),
                Ok(Some(right)) => Ok(Some(Node::Internal(right))),
            },
        }
    }
}

impl<V> InternalNode<V> {
    /// What descending into child `i` for key `e.key` knows: the children before it hold
    /// smaller keys, those after it larger ones, so placing `e` only changes child `i`.
    proof fn lemma_descend(self, i: int, e: Entry<V>)
        requires
            self.wf(),
            0 <= i < self.children@.len(),
            forall|j: int| 0 <= j < i ==> self.separators@[j] <= e.key,
            forall|j: int| i <= j < self.separators@.len() ==> e.key < self.separators@[j],
        ensures
            ({
                let cs = self.children@;
                let ss = self.separators@;
                let p = cs.subrange(0, i);
                let q = cs.subrange(i + 1, cs.len() as int);
                let x = put(cs[i].items(), e);
                &&& self.items() == concat(p) + cs[i].items() + concat(q)
                &&& put(self.items(), e) == concat(p) + x + concat(q)
                &&& has_key(self.items(), e.key) == has_key(cs[i].items(), e.key)
                &&& cs[i].wf()
                &&& cs[i].height() == cs[0].height()
                &&& sorted(x)
                &&& sorted(cs[i].items())
                &&& x.len() >= 1
                &&& i > 0 ==> all_at_least(x, ss[i - 1]) && all_at_least(cs[i].items(), ss[i - 1])
                &&& i + 1 < cs.len() ==> all_below(x, ss[i]) && all_below(cs[i].items(), ss[i])
            }),
    {
        let cs = self.children@;
        let ss = self.separators@;
        let k = e.key;
        let p = cs.subrange(0, i);
        let c = cs[i];
        let q = cs.subrange(i + 1, cs.len() as int);
        lemma_all_wf(cs, cs.len());
        lemma_concat_split(cs, i);
        assert forall|j: int| 0 <= j < i implies all_below(#[trigger] p[j].items(), k) by {
            assert(all_below(cs[j].items(), ss[j]));
        }
        lemma_concat_below(p, p.len(), k);
        if i + 1 < cs.len() {
            assert forall|j: int| 0 <= j < q.len() implies all_at_least(
                #[trigger] q[j].items(),
                ss[i],
            ) by {
                assert(all_below(cs[i + j].items(), ss[i + j]));
                assert(q[j] == cs[i + 1 + j]);
            }
            lemma_concat_at_least(q, q.len(), ss[i]);
        }
        assert(all_above(concat(q), k));
        lemma_has_key_middle(concat(p), c.items(), concat(q), k);
        lemma_put_after_prefix(concat(p), c.items() + concat(q), e);
        lemma_put_before_suffix(c.items(), concat(q), e);
        assert(concat(p) + c.items() + concat(q) =~= concat(p) + (c.items() + concat(q)));
        assert(concat(p) + (put(c.items(), e) + concat(q)) =~= concat(p) + put(c.items(), e)
            + concat(q));
        lemma_wf_items(c);
        lemma_put_sorted(c.items(), e);
        if i > 0 {
            assert(all_below(cs[i - 1].items(), ss[i - 1]));
            lemma_put_at_least(c.items(), e, ss[i - 1]);
        }
        if i + 1 < cs.len() {
            assert(all_below(cs[i].items(), ss[i]));
            lemma_put_below(c.items(), e, ss[i]);
        }
    }

    /// Child `i` of `self` replaced by a well-formed node of the same height whose keys
    /// stay within the separators around it gives a well-formed node.
    #[verifier::rlimit(40)]
    proof fn lemma_replace_child(self, n: InternalNode<V>, i: int)
        requires
            self.wf(),
            0 <= i < self.children@.len(),
            n.degree == self.degree,
            n.separators@ == self.separators@,
            n.children@.len() == self.children@.len(),
            forall|j: int| 0 <= j < n.children@.len() && j != i ==> n.children@[j] == self.children@[j],
            n.children@[i].wf(),
            n.children@[i].degree() == self.degree,
            n.children@[i].height() == self.children@[0].height(),
            i > 0 ==> all_at_least(n.children@[i].items(), self.separators@[i - 1]),
            i + 1 < self.children@.len() ==> all_below(n.children@[i].items(), self.separators@[i]),
        ensures
            n.wf(),
            Node::Internal(n).height() == Node::Internal(self).height(),
            n.items() == concat(self.children@.subrange(0, i)) + n.children@[i].items() + concat(
                self.children@.subrange(i + 1, self.children@.len() as int),
            ),
    {
        let cs = self.children@;
        let ss = self.separators@;
        let cs2 = n.children@;
        assert(cs2.subrange(0, i) =~= cs.subrange(0, i));
        assert(cs2.subrange(i + 1, cs2.len() as int) =~= cs.subrange(i + 1, cs.len() as int));
        lemma_concat_split(cs2, i);
        lemma_all_wf(cs, cs.len());
        assert forall|j: int| 0 <= j < cs2.len() implies (#[trigger] cs2[j]).wf() by {
            if j != i {
                assert(cs2[j] == cs[j]);
            }
        }
        lemma_all_wf(cs2, cs2.len());
        assert forall|j: int| 0 <= j < cs2.len() implies (#[trigger] cs2[j]).degree() == n.degree
            && cs2[j].height() == cs2[0].height() by {
            assert(cs[j].height() == cs[0].height());
        }
        assert forall|j: int| 0 <= j < ss.len() implies all_below(
            #[trigger] cs2[j].items(),
            ss[j],
        ) && all_at_least(cs2[j + 1].items(), ss[j]) by {
            assert(all_below(cs[j].items(), ss[j]));
        }
        assert(Node::Internal(n).height() == 1 + cs2[0].height());
    }

    /// Child `i` of `self` replaced by two adjacent nodes `a` and `b` of its height whose keys
    /// stay within the separators around it, with `b`'s smallest key between them, gives an
    /// ordered node with one more child.
    #[verifier::rlimit(60)]
    proof fn lemma_replace_child_by_two(self, n: InternalNode<V>, i: int, a: Node<V>, b: Node<V>)
        requires
            self.wf(),
            0 <= i < self.children@.len(),
            n.degree == self.degree,
            n.children@ == self.children@.subrange(0, i) + seq![a, b] + self.children@.subrange(
                i + 1,
                self.children@.len() as int,
            ),
            n.separators@ == self.separators@.insert(i, b.items()[0].key),
            a.wf(),
            b.wf(),
            b.items().len() > 0,
            a.degree() == self.degree,
            b.degree() == self.degree,
            a.height() == self.children@[0].height(),
            b.height() == self.children@[0].height(),
            sorted(a.items() + b.items()),
            i > 0 ==> all_at_least(a.items() + b.items(), self.separators@[i - 1]),
            i + 1 < self.children@.len() ==> all_below(a.items() + b.items(), self.separators@[i]),
        ensures
            n.ordered(),
            all_wf(n.children@, n.children@.len()),
            Node::Internal(n).height() == Node::Internal(self).height(),
            n.items() == concat(self.children@.subrange(0, i)) + (a.items() + b.items()) + concat(
                self.children@.subrange(i + 1, self.children@.len() as int),
            ),
    {
        let cs = self.children@;
        let ss = self.separators@;
        let cs2 = n.children@;
        let ss2 = n.separators@;
        let p = cs.subrange(0, i);
        let q = cs.subrange(i + 1, cs.len() as int);
        let x = a.items() + b.items();
        let sep = b.items()[0].key;
        lemma_all_wf(cs, cs.len());
        lemma_wf_items(a);
        lemma_wf_items(b);
        assert(cs2 =~= p + (seq![a] + (seq![b] + q)));
        lemma_concat_append(p, seq![a] + (seq![b] + q));
        lemma_concat_append(seq![a], seq![b] + q);
        lemma_concat_append(seq![b], q);
        lemma_concat_one(a);
        lemma_concat_one(b);
        assert(concat(cs2) =~= concat(p) + x + concat(q));
        assert forall|t: int| 0 <= t < a.items().len() implies a.items()[t].key < sep by {
            assert(x[t] == a.items()[t]);
            assert(x[a.items().len() as int] == b.items()[0]);
        }
        assert forall|t: int| 0 <= t < b.items().len() implies sep <= b.items()[t].key by {
            assert(x[a.items().len() + t] == b.items()[t]);
            assert(x[a.items().len() as int] == b.items()[0]);
        }
        if i > 0 {
            assert forall|t: int| 0 <= t < a.items().len() implies ss[i - 1] <= a.items()[t].key by {
                assert(x[t] == a.items()[t]);
            }
            assert(ss[i - 1] <= a.items()[0].key);
        }
        if i + 1 < cs.len() {
            assert forall|t: int| 0 <= t < b.items().len() implies b.items()[t].key < ss[i] by {
                assert(x[a.items().len() + t] == b.items()[t]);
            }
            assert(b.items()[0].key < ss[i]);
        }
        assert forall|j: int| 0 <= j < cs2.len() implies (#[trigger] cs2[j]).wf()
            && cs2[j].degree() == n.degree && cs2[j].height() == cs2[0].height() by {
            if j < i {
                assert(cs2[j] == cs[j]);
                assert(cs[j].height() == cs[0].height());
            } else if j > i + 1 {
                assert(cs2[j] == cs[j - 1]);
                assert(cs[j - 1].height() == cs[0].height());
            }
        }
        lemma_all_wf(cs2, cs2.len());
        assert forall|j: int, l: int| 0 <= j < l < ss2.len() implies ss2[j] < ss2[l] by {
            if l < i {
            } else if l == i {
                if j < i - 1 {
                    assert(ss[j] < ss[i - 1]);
                }
            } else if j > i {
            } else if j == i {
                if l > i + 1 {
                    assert(ss[i] < ss[l - 1]);
                }
            } else {
                assert(ss[j] < ss[l - 1]);
            }
        }
        assert forall|j: int| 0 <= j < ss2.len() implies all_below(
            #[trigger] cs2[j].items(),
            ss2[j],
        ) && all_at_least(cs2[j + 1].items(), ss2[j]) by {
            if j < i - 1 {
                assert(cs2[j] == cs[j] && cs2[j + 1] == cs[j + 1] && ss2[j] == ss[j]);
                assert(all_below(cs[j].items(), ss[j]));
            } else if j == i - 1 {
                assert(cs2[j] == cs[j] && cs2[j + 1] == a && ss2[j] == ss[j]);
                assert(all_below(cs[j].items(), ss[j]));
            } else if j == i {
                assert(cs2[j] == a && cs2[j + 1] == b && ss2[j] == sep);
            } else if j == i + 1 {
                assert(cs2[j] == b && cs2[j + 1] == cs[i + 1] && ss2[j] == ss[i]);
                assert(all_below(cs[i].items(), ss[i]));
            } else {
                assert(cs2[j] == cs[j - 1] && cs2[j + 1] == cs[j] && ss2[j] == ss[j - 1]);
                assert(all_below(cs[j - 1].items(), ss[j - 1]));
            }
        }
        assert(Node::Internal(n).height() == 1 + cs2[0].height());
    }

    /// Inserts `entry` into the child whose key range holds its key. When that child
    /// splits, its new sibling goes in right after it, under a separator equal to the
    /// sibling's smallest key; if this node then has more than `degree` children it
    /// splits too and returns its upper half. A key that is already present under
    /// `Reject` is found before anything changes.
    #[verifier::rlimit(100)]
    #[verifier::spinoff_prover]
    pub fn insert(&mut self, entry: Entry<V>, policy: DuplicatePolicy) -> (r: Result<
        Option<InternalNode<V>>,
        InsertError,
    >)
        requires
            old(self).wf(),
        ensures
            final(self).wf(),
            final(self).degree == old(self).degree,
            Node::Internal(*final(self)).height() == Node::Internal(*old(self)).height(),
            (r is Err) == (policy == DuplicatePolicy::Reject && has_key(
                old(self).items(),
                entry.key,
            )),
            r is Err ==> *final(self) == *old(self),
            r == Ok::<Option<InternalNode<V>>, InsertError>(None) ==> final(self).items() == put(
                old(self).items(),
                entry,
            ),
            r matches Ok(Some(sibling)) ==> {
                &&& sibling.wf()
                &&& sibling.degree == old(self).degree
                &&& Node::Internal(sibling).height() == Node::Internal(*old(self)).height()
                &&& final(self).items() + sibling.items() == put(old(self).items(), entry)
                &&& old(self).children@.len() == old(self).degree
            },
            r matches Ok(sibling) ==> Node::Internal(*old(self)).insert_shape(
                Node::Internal(*final(self)),
                match sibling {
                    Some(x) => Some(Node::Internal(x)),
                    None => None,
                },
                entry,
            ),
        decreases Node::Internal(*old(self)).height(), 0nat,
    {
        let ghost o = *self;
        let ghost cs = self.children@;
        if policy == DuplicatePolicy::Reject && self.contains_key(entry.key) {
            return Err(InsertError::DuplicateKey);
        }
        let i = self.child_index(entry.key);
        proof {
            o.lemma_descend(i as int, entry);
        }
        let ghost e = entry;
        let mut child = self.children.remove(i);
        let result = child.insert(entry, DuplicatePolicy::Overwrite);
        match result {
            Err(err) => {
                proof {
                    assert(false);
                }
                self.children.insert(i, child);
                Err(err)
            },
            Ok(None) => {
                self.children.insert(i, child);
                proof {
                    o.lemma_replace_child(*self, i as int);
                    assert(self.children@[i as int] == child);
                    assert(self.children@ =~= cs.update(i as int, child));
                }
                Ok(None)
            },
            Ok(Some(sibling)) => {
                let sep = sibling.min_key();
                self.children.insert(i, child);
                self.children.insert(i + 1, sibling);
                self.separators.insert(i, sep);
                proof {
                    assert(self.children@ =~= cs.subrange(0, i as int) + seq![child, sibling]
                        + cs.subrange(i + 1, cs.len() as int));
                    lemma_wf_items(sibling);
                    o.lemma_replace_child_by_two(*self, i as int, child, sibling);
                }
                let ghost pre_c = self.children@;
                let ghost pre_s = self.separators@;
                proof {
                    assert(pre_c[i as int] == child);
                    assert(pre_c[i + 1] == sibling);
                    assert(pre_s =~= o.separators@.insert(i as int, sibling.items()[0].key));
                }
                if self.children.len() > self.degree {
                    let right = self.split();
                    proof {
                        assert(self.children@ + right.children@ =~= pre_c);
                    }
                    proof {
                        lemma_all_wf(self.children@, self.children@.len());
                        lemma_all_wf(right.children@, right.children@.len());
                    }
                    Ok(Some(right))
                } else {
                    Ok(None)
                }
            },
        }
    }
}

impl<V> Node<V> {
    /// Whether some entry under this node has key `key`, found by descending to the one
    /// leaf whose key range holds it.
    pub fn contains_key(&self, key: u64) -> (r: bool)
        requires
            self.wf(),
        ensures
            r == has_key(self.items(), key),
        decreases self.height(), 1nat,
    {
        match self {
            Node::Leaf(l) => {
                let pos = l.position_of(key);
                let found = pos < l.entries.len() && l.entries[pos].key == key;
                proof {
                    let s = l.entries@;
                    assert(s =~= s.subrange(0, pos as int) + s.subrange(pos as int, s.len() as int));
                    if found {
                        assert(s[pos as int].key == key);
                    }
                    if !found && has_key(s, key) {
                        let j = choose|j: int| 0 <= j < s.len() && s[j].key == key;
                        if j >= pos {
                            assert(s.subrange(pos as int, s.len() as int)[j - pos].key >= key);
                            assert(s[pos as int].key <= s[j].key);
                        } else {
                            assert(s.subrange(0, pos as int)[j].key < key);
                        }
                    }
                }
                found
            },
            Node::Internal(n) => n.contains_key(key),
        }
    }
}

impl<V> InternalNode<V> {
    /// Whether some entry under this node has key `key`.
    pub fn contains_key(&self, key: u64) -> (r: bool)
        requires
            self.wf(),
        ensures
            r == has_key(self.items(), key),
        decreases Node::Internal(*self).height(), 0nat,
    {
        let i = self.child_index(key);
        proof {
            self.lemma_descend(i as int, Entry { key, value: arbitrary() });
        }
        self.children[i].contains_key(key)
    }
}


/// `a` and `b` are the same tree: equal degrees, equal separators, equal entries in each
/// leaf, and children that are the same trees, pairwise.
pub open spec fn same_tree<V>(a: Node<V>, b: Node<V>) -> bool
    decreases a, 0nat,
{
    match a {
        Node::Leaf(la) => b matches Node::Leaf(lb) && la.degree == lb.degree && la.entries@
            == lb.entries@,
        Node::Internal(na) => {
            &&& b is Internal
            &&& na.degree == b->Internal_0.degree
            &&& na.separators@ == b->Internal_0.separators@
            &&& na.children@.len() == b->Internal_0.children@.len()
            &&& same_upto(na.children@, b->Internal_0.children@, na.children@.len())
        },
    }
}

/// The first `k` nodes of `xs` and `ys` are the same trees, pairwise.
pub open spec fn same_upto<V>(xs: Seq<Node<V>>, ys: Seq<Node<V>>, k: nat) -> bool
    decreases xs, k,
{
    if k == 0 || k > xs.len() {
        true
    } else {
        same_upto(xs, ys, (k - 1) as nat) && same_tree(xs[k - 1], ys[k - 1])
    }
}

/// `same_upto` says of each of the first `k` pairs that they are the same tree.
pub proof fn lemma_same_upto<V>(xs: Seq<Node<V>>, ys: Seq<Node<V>>, k: nat)
    requires
        k <= xs.len(),
    ensures
        same_upto(xs, ys, k) <==> forall|i: int| 0 <= i < k ==> same_tree(#[trigger] xs[i], ys[i]),
    decreases k,
{
    if k > 0 {
        lemma_same_upto(xs, ys, (k - 1) as nat);
        assert(same_upto(xs, ys, k) == (same_upto(xs, ys, (k - 1) as nat) && same_tree(
            xs[k - 1],
            ys[k - 1],
        )));
        if forall|i: int| 0 <= i < k ==> same_tree(#[trigger] xs[i], ys[i]) {
            assert(same_tree(xs[k - 1], ys[k - 1]));
        }
    }
}

/// Every tree is the same tree as itself.
pub proof fn lemma_same_tree_refl<V>(a: Node<V>)
    ensures
        same_tree(a, a),
    decreases a,
{
    if let Node::Internal(n) = a {
        let cs = n.children@;
        assert forall|i: int| 0 <= i < cs.len() implies same_tree(#[trigger] cs[i], cs[i]) by {
            lemma_same_tree_refl(cs[i]);
        }
        lemma_same_upto(cs, cs, cs.len());
    }
}

/// The same trees hold the same entries.
pub proof fn lemma_same_tree_items<V>(a: Node<V>, b: Node<V>)
    requires
        same_tree(a, b),
    ensures
        a.items() == b.items(),
    decreases a,
{
    if let Node::Internal(na) = a {
        let xs = na.children@;
        let ys = b->Internal_0.children@;
        lemma_same_upto(xs, ys, xs.len());
        assert forall|i: int| 0 <= i < xs.len() implies (#[trigger] xs[i]).items() == ys[i].items() by {
            lemma_same_tree_items(xs[i], ys[i]);
        }
        lemma_concat_upto_eq(xs, ys, xs.len());
    }
}

proof fn lemma_concat_upto_eq<V>(xs: Seq<Node<V>>, ys: Seq<Node<V>>, k: nat)
    requires
        k <= xs.len(),
        xs.len() == ys.len(),
        forall|i: int| 0 <= i < xs.len() ==> (#[trigger] xs[i]).items() == ys[i].items(),
    ensures
        concat_upto(xs, k) == concat_upto(ys, k),
    decreases k,
{
    if k > 0 {
        lemma_concat_upto_eq(xs, ys, (k - 1) as nat);
        assert(xs[k - 1].items() == ys[k - 1].items());
    }
}

/// Inserting one entry into the same trees gives the same trees: the node that stays and
/// the sibling split off, if any, are determined by the tree and the entry alone.
pub proof fn lemma_insert_deterministic<V>(
    n1: Node<V>,
    n2: Node<V>,
    e: Entry<V>,
    a1: Node<V>,
    s1: Option<Node<V>>,
    a2: Node<V>,
    s2: Option<Node<V>>,
)
    requires
        same_tree(n1, n2),
        n1.insert_shape(a1, s1, e),
        n2.insert_shape(a2, s2, e),
    ensures
        same_tree(a1, a2),
        s1 is Some <==> s2 is Some,
        s1 is Some ==> same_tree(s1->Some_0, s2->Some_0),
    decreases n1,
{
    match n1 {
        Node::Leaf(_) => {},
        Node::Internal(m1) => {
            let m2 = n2->Internal_0;
            let c1 = m1.children@;
            let c2 = m2.children@;
            let ss = m1.separators@;
            let i = child_route(ss, e.key);
            lemma_same_upto(c1, c2, c1.len());
            assert(same_tree(c1[i], c2[i]));
            let x1 = a1->Internal_0;
            let x2 = a2->Internal_0;
            let all1 = match s1 {
                Some(y) => x1.children@ + y->Internal_0.children@,
                None => x1.children@,
            };
            let all2 = match s2 {
                Some(y) => x2.children@ + y->Internal_0.children@,
                None => x2.children@,
            };
            if all1.len() == c1.len() {
                if all2.len() == c2.len() {
                    lemma_insert_deterministic(c1[i], c2[i], e, all1[i], None, all2[i], None);
                } else {
                    lemma_insert_deterministic(c1[i], c2[i], e, all1[i], None, all2[i], Some(all2[i + 1]));
                }
                assert forall|j: int| 0 <= j < all1.len() implies same_tree(#[trigger] all1[j], all2[j]) by {
                    if j != i {
                        assert(all1[j] == c1[j]);
                        assert(all2[j] == c2[j]);
                        assert(same_tree(c1[j], c2[j]));
                    }
                }
                lemma_same_upto(all1, all2, all1.len());
            } else {
                if all2.len() == c2.len() {
                    lemma_insert_deterministic(c1[i], c2[i], e, all1[i], Some(all1[i + 1]), all2[i], None);
                } else {
                    lemma_insert_deterministic(c1[i], c2[i], e, all1[i], Some(all1[i + 1]), all2[i], Some(all2[i + 1]));
                }
                lemma_same_tree_items(all1[i + 1], all2[i + 1]);
                assert forall|j: int| 0 <= j < all1.len() implies same_tree(#[trigger] all1[j], all2[j]) by {
                    if j < i {
                        assert(all1[j] == c1[j]);
                        assert(all2[j] == c2[j]);
                        assert(same_tree(c1[j], c2[j]));
                    } else if j > i + 1 {
                        assert(all1[j] == c1[j - 1]);
                        assert(all2[j] == c2[j - 1]);
                        assert(same_tree(c1[j - 1], c2[j - 1]));
                    }
                }
                let k = split_point(all1.len() as int);
                if all1.len() <= m1.degree {
                    lemma_same_upto(all1, all2, all1.len());
                } else {
                    let y1 = s1->Some_0->Internal_0.children@;
                    let y2 = s2->Some_0->Internal_0.children@;
                    assert forall|j: int| 0 <= j < x1.children@.len() implies same_tree(
                        #[trigger] x1.children@[j],
                        x2.children@[j],
                    ) by {
                        assert(x1.children@[j] == all1[j]);
                        assert(x2.children@[j] == all2[j]);
                    }
                    assert forall|j: int| 0 <= j < y1.len() implies same_tree(
                        #[trigger] y1[j],
                        y2[j],
                    ) by {
                        assert(y1[j] == all1[k + j]);
                        assert(y2[j] == all2[k + j]);
                    }
                    lemma_same_upto(x1.children@, x2.children@, x1.children@.len());
                    lemma_same_upto(y1, y2, y1.len());
                }
            }
        },
    }
}

} // verus!
