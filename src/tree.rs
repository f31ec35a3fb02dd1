//! The tree: an optional root, grown by inserts.

use vstd::prelude::*;
use crate::entry::{Entry, DuplicatePolicy, InsertError, sorted, has_key, put, lemma_put_sorted};
use crate::leaf::LeafNode;
use crate::node::{
    Node, InternalNode, lemma_wf_items, same_tree, lemma_insert_deterministic,
    lemma_same_tree_items, lemma_same_upto,
};

verus! {

/// A B+Tree from `u64` keys to values of type `V`. Every node is created with the tree's
/// `degree`: a leaf holds at most `degree - 1` entries and an internal node at most
/// `degree` children.
#[derive(Debug)]
pub struct BPTree<V> {
    pub degree: usize,
    pub policy: DuplicatePolicy,
    pub root_node: Option<Node<V>>,
}

impl<V> BPTree<V> {
    /// The entries of the tree in key order.
    pub open spec fn items(self) -> Seq<Entry<V>> {
        match self.root_node {
            None => seq![],
            Some(root) => root.items(),
        }
    }

    /// The number of levels; an empty tree has none.
    pub open spec fn height(self) -> nat {
        match self.root_node {
            None => 0,
            Some(root) => root.height(),
        }
    }

    pub open spec fn wf(self) -> bool {
        &&& 2 <= self.degree
        &&& match self.root_node {
            None => true,
            Some(root) => root.wf() && root.degree() == self.degree,
        }
    }

    /// An empty tree that overwrites the entry of a key inserted again.
    pub fn new(degree: usize) -> (r: BPTree<V>)
        requires
            degree >= 2,
        ensures
            r.wf(),
            r.degree == degree,
            r.policy == DuplicatePolicy::Overwrite,
            r.root_node is None,
    {
        BPTree { degree, policy: DuplicatePolicy::Overwrite, root_node: None }
    }

    /// An empty tree with the given handling of keys inserted again.
    pub fn with_policy(degree: usize, policy: DuplicatePolicy) -> (r: BPTree<V>)
        requires
            degree >= 2,
        ensures
            r.wf(),
            r.degree == degree,
            r.policy == policy,
            r.root_node is None,
    {
        BPTree { degree, policy, root_node: None }
    }

    /// Inserts `entry`. An empty tree gets a one-entry leaf as its root; a root that splits
    /// is replaced by a new internal node over its two halves, one level higher.
    pub fn insert(&mut self, entry: Entry<V>) -> (r: Result<(), InsertError>)
        requires
            old(self).wf(),
        ensures
            final(self).wf(),
            final(self).degree == old(self).degree,
            final(self).policy == old(self).policy,
            (r is Err) == (old(self).policy == DuplicatePolicy::Reject && has_key(
                old(self).items(),
                entry.key,
            )),
            r is Err ==> *final(self) == *old(self),
            r is Ok ==> final(self).items() == put(old(self).items(), entry),
            r is Ok ==> root_after_insert(
                old(self).root_node,
                old(self).degree,
                entry,
                final(self).root_node,
            ),
            final(self).height() == old(self).height() || final(self).height() == old(
                self,
            ).height() + 1,
            final(self).height() == old(self).height() + 1 ==> match old(self).root_node {
                None => final(self).root_node matches Some(Node::Leaf(l)) && l.entries@ == seq![
                    entry,
                ],
                Some(root) => {
                    &&& root.is_full()
                    &&& final(self).root_node matches Some(Node::Internal(n))
                    &&& n.children@.len() == 2
                },
            },
    {
        let root = self.root_node.take();
        match root {
            None => {
                let leaf = LeafNode::new_from_entry(self.degree, entry);
                self.root_node = Some(Node::Leaf(leaf));
                Ok(())
            },
            Some(mut node) => {
                proof {
                    lemma_wf_items(node);
                    lemma_put_sorted(node.items(), entry);
                }
                match node.insert(entry, self.policy) {
                    Err(err) => {
                        self.root_node = Some(node);
                        Err(err)
                    },
                    Ok(None) => {
                        self.root_node = Some(node);
                        Ok(())
                    },
                    Ok(Some(sibling)) => {
                        let new_root = InternalNode::from_two_nodes(node, sibling);
                        self.root_node = Some(Node::Internal(new_root));
                        Ok(())
                    },
                }
            },
        }
    }
}

/// The root that inserting `e` leaves, from the root `root` of a tree of degree `degree`:
/// a one-entry leaf in an empty tree; else the root's own result, or, when the root
/// split, a new internal node over the two halves under the smallest key of the second.
pub open spec fn root_after_insert<V>(
    root: Option<Node<V>>,
    degree: usize,
    e: Entry<V>,
    new_root: Option<Node<V>>,
) -> bool {
    match root {
        None => new_root matches Some(Node::Leaf(l)) && l.degree == degree && l.entries@ == seq![e],
        Some(root) => {
            &&& new_root is Some
            &&& root.insert_shape(new_root->Some_0, None, e) || {
                let n = new_root->Some_0->Internal_0;
                &&& new_root matches Some(Node::Internal(_))
                &&& n.degree == degree
                &&& n.children@.len() == 2
                &&& n.separators@ == seq![n.children@[1].items()[0].key]
                &&& root.insert_shape(n.children@[0], Some(n.children@[1]), e)
            }
        },
    }
}

/// Both roots are absent, or both are the same tree.
pub open spec fn same_root<V>(a: Option<Node<V>>, b: Option<Node<V>>) -> bool {
    match a {
        None => b is None,
        Some(x) => b matches Some(y) && same_tree(x, y),
    }
}

/// Inserting one entry into two trees of one degree with the same root gives the same
/// root in both: every split divides the entries and children in the same place.
pub proof fn lemma_insert_root_deterministic<V>(
    r1: Option<Node<V>>,
    r2: Option<Node<V>>,
    degree: usize,
    e: Entry<V>,
    f1: Option<Node<V>>,
    f2: Option<Node<V>>,
)
    requires
        same_root(r1, r2),
        root_after_insert(r1, degree, e, f1),
        root_after_insert(r2, degree, e, f2),
    ensures
        same_root(f1, f2),
{
    if let Some(n1) = r1 {
        let n2 = r2->Some_0;
        let g1 = f1->Some_0;
        let g2 = f2->Some_0;
        if n1.insert_shape(g1, None, e) {
            if n2.insert_shape(g2, None, e) {
                lemma_insert_deterministic(n1, n2, e, g1, None, g2, None);
            } else {
                let c = g2->Internal_0.children@;
                lemma_insert_deterministic(n1, n2, e, g1, None, c[0], Some(c[1]));
            }
        } else {
            let c1 = g1->Internal_0.children@;
            if n2.insert_shape(g2, None, e) {
                lemma_insert_deterministic(n1, n2, e, c1[0], Some(c1[1]), g2, None);
            } else {
                let c2 = g2->Internal_0.children@;
                lemma_insert_deterministic(n1, n2, e, c1[0], Some(c1[1]), c2[0], Some(c2[1]));
                lemma_same_tree_items(c1[1], c2[1]);
                assert(same_tree(c1[0], c2[0]));
                lemma_same_upto(c1, c2, 2);
            }
        }
    }
}

/// The entries of a well-formed tree ascend strictly by key.
pub proof fn lemma_tree_sorted<V>(t: BPTree<V>)
    requires
        t.wf(),
    ensures
        sorted(t.items()),
{
    if let Some(root) = t.root_node {
        lemma_wf_items(root);
    }
}

} // verus!
