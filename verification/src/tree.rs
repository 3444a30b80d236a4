use vstd::prelude::*;

use crate::key::Cmp;
use crate::key::Key;

verus! {

/// A slot that is either empty or owns one node exclusively.
type Link<T> = Option<Box<Node<T>>>;

/// One tree node: a stored element and two optional, exclusively-owned
/// children.
struct Node<T> {
    data: T,
    left: Link<T>,
    right: Link<T>,
}

/// An unbalanced binary search tree of elements carrying their own key.
pub struct BST<T: Key> {
    root: Link<T>,
}

impl<T: Key> Node<T> {
    /// The map from keys to elements held in the subtree under a slot.
    spec fn link_entries(link: Link<T>) -> Map<T::K, T>
        decreases link,
    {
        match link {
            None => Map::empty(),
            Some(node) => node.entries(),
        }
    }

    /// The map from keys to elements held in this node's subtree.
    spec fn entries(self) -> Map<T::K, T>
        decreases self,
    {
        Self::link_entries(self.left)
            .union_prefer_right(Self::link_entries(self.right))
            .insert(self.data.spec_key(), self.data)
    }

    /// BST ordering: the left subtree holds only keys strictly below this
    /// node's key, the right subtree only keys strictly above, recursively.
    spec fn ordered(self) -> bool
        decreases self,
    {
        &&& (forall|k: T::K|
            #[trigger] Self::link_entries(self.left).dom().contains(k)
                ==> T::lt(k, self.data.spec_key()))
        &&& (forall|k: T::K|
            #[trigger] Self::link_entries(self.right).dom().contains(k)
                ==> T::lt(self.data.spec_key(), k))
        &&& Self::link_ordered(self.left)
        &&& Self::link_ordered(self.right)
    }

    /// BST ordering for the subtree under a slot.
    spec fn link_ordered(link: Link<T>) -> bool
        decreases link,
    {
        match link {
            None => true,
            Some(node) => node.ordered(),
        }
    }
}

impl<T: Key> Node<T> {
    /// A fresh leaf node holding one element and no children.
    fn new(data: T) -> (node: Self)
        ensures
            node.ordered(),
            node.entries() =~= Map::empty().insert(data.spec_key(), data),
    {
        Node { data, left: None, right: None }
    }
}

impl<T: Key> BST<T> {
    /// Well-formedness: the whole tree obeys the BST ordering.
    pub closed spec fn well_formed(self) -> bool {
        Node::<T>::link_ordered(self.root)
    }

    #[verifier::type_invariant]
    spec fn type_inv(self) -> bool {
        self.well_formed()
    }

    /// Creates an empty tree.
    pub fn new() -> (tree: Self)
        ensures
            tree.well_formed(),
            tree@ == Map::<T::K, T>::empty(),
    {
        BST { root: None }
    }
}

impl<T: Key> View for BST<T> {
    type V = Map<T::K, T>;

    /// The tree abstractly: a map from keys to the elements that carry them.
    closed spec fn view(&self) -> Map<T::K, T> {
        Node::<T>::link_entries(self.root)
    }
}

impl<T: Key> Node<T> {
    /// Walks from a slot towards the key, as every operation does.
    fn find_in_link<'a>(link: &'a Link<T>, key: &T::K) -> (found: Option<&'a T>)
        requires
            Self::link_ordered(*link),
        ensures
            (match found {
                Some(data) => {
                    &&& Self::link_entries(*link).dom().contains(*key)
                    &&& *data == Self::link_entries(*link)[*key]
                },
                None => !Self::link_entries(*link).dom().contains(*key),
            }),
        decreases *link,
    {
        match link {
            None => None,
            Some(node) => {
                match T::cmp_keys(key, node.data.key()) {
                    Cmp::Eq => Some(&node.data),
                    Cmp::Lt => {
                        proof {
                            T::lt_irreflexive(*key);
                            if Self::link_entries(node.right).dom().contains(*key) {
                                T::lt_transitive(*key, node.data.spec_key(), *key);
                            }
                        }
                        Self::find_in_link(&node.left, key)
                    },
                    Cmp::Gt => {
                        proof {
                            T::lt_irreflexive(*key);
                            if Self::link_entries(node.left).dom().contains(*key) {
                                T::lt_transitive(*key, node.data.spec_key(), *key);
                            }
                        }
                        Self::find_in_link(&node.right, key)
                    },
                }
            },
        }
    }
}

impl<T: Key> Node<T> {
    /// Installs the element at the slot that owns its key: a new node where
    /// the key is absent, an overwrite of the occupant's element where it is
    /// present (upsert).
    fn insert_into_link(link: &mut Link<T>, data: T)
        requires
            Self::link_ordered(*old(link)),
        ensures
            Self::link_ordered(*final(link)),
            Self::link_entries(*final(link))
                =~= Self::link_entries(*old(link)).insert(data.spec_key(), data),
        decreases *old(link),
    {
        match link.take() {
            None => {
                *link = Some(Box::new(Node::new(data)));
            },
            Some(mut node) => {
                match T::cmp_keys(data.key(), node.data.key()) {
                    Cmp::Eq => {
                        proof {
                            T::lt_irreflexive(data.spec_key());
                        }
                        node.data = data;
                        *link = Some(node);
                    },
                    Cmp::Lt => {
                        proof {
                            T::lt_irreflexive(data.spec_key());
                            if Self::link_entries(node.right).dom().contains(data.spec_key()) {
                                T::lt_transitive(
                                    data.spec_key(),
                                    node.data.spec_key(),
                                    data.spec_key(),
                                );
                            }
                        }
                        Self::insert_into_link(&mut node.left, data);
                        *link = Some(node);
                    },
                    Cmp::Gt => {
                        proof {
                            T::lt_irreflexive(data.spec_key());
                            if Self::link_entries(node.left).dom().contains(data.spec_key()) {
                                T::lt_transitive(
                                    data.spec_key(),
                                    node.data.spec_key(),
                                    data.spec_key(),
                                );
                            }
                        }
                        Self::insert_into_link(&mut node.right, data);
                        *link = Some(node);
                    },
                }
            },
        }
    }
}

impl<T: Key> Node<T> {
    /// Splices the in-order first node out of a non-empty subtree and hands
    /// its element back: the element with the least key, taken from the node
    /// reached by following left children, which is replaced by its own
    /// right child.
    fn take_leftmost(link: &mut Link<T>) -> (popped: T)
        requires
            old(link).is_some(),
            Self::link_ordered(*old(link)),
        ensures
            Self::link_ordered(*final(link)),
            Self::link_entries(*final(link))
                =~= Self::link_entries(*old(link)).remove(popped.spec_key()),
            Self::link_entries(*old(link)).dom().contains(popped.spec_key()),
            Self::link_entries(*old(link))[popped.spec_key()] == popped,
            forall|k: T::K|
                #[trigger] Self::link_entries(*old(link)).dom().contains(k)
                    && k != popped.spec_key() ==> T::lt(popped.spec_key(), k),
        decreases *old(link),
    {
        let mut node = link.take().unwrap();
        if node.left.is_none() {
            proof {
                assert(Self::link_entries(node.left) =~= Map::empty());
                if Self::link_entries(node.right).dom().contains(node.data.spec_key()) {
                    T::lt_irreflexive(node.data.spec_key());
                }
            }
            *link = node.right;
            node.data
        } else {
            let popped = Self::take_leftmost(&mut node.left);
            proof {
                let node_key = node.data.spec_key();
                let popped_key = popped.spec_key();
                T::lt_irreflexive(popped_key);
                if Self::link_entries(node.right).dom().contains(popped_key) {
                    T::lt_transitive(popped_key, node_key, popped_key);
                }
                assert forall|k: T::K|
                    #[trigger] Self::link_entries(*old(link)).dom().contains(k)
                        && k != popped_key implies T::lt(popped_key, k) by {
                    if Self::link_entries(node.right).dom().contains(k) {
                        T::lt_transitive(popped_key, node_key, k);
                    }
                }
            }
            *link = Some(node);
            popped
        }
    }

    /// Removes the key's node from the subtree under the slot, if present.
    /// A node with no right child is replaced by its left child; a node with
    /// a right child takes over its in-order successor's element, and the
    /// successor — which has no left child — is replaced by its right child.
    fn delete_from_link(link: &mut Link<T>, key: &T::K)
        requires
            Self::link_ordered(*old(link)),
        ensures
            Self::link_ordered(*final(link)),
            Self::link_entries(*final(link))
                =~= Self::link_entries(*old(link)).remove(*key),
            !Self::link_entries(*old(link)).dom().contains(*key)
                ==> *final(link) == *old(link),
        decreases *old(link),
    {
        match link.take() {
            None => {},
            Some(mut node) => {
                match T::cmp_keys(key, node.data.key()) {
                    Cmp::Eq => {
                        proof {
                            T::lt_irreflexive(*key);
                        }
                        if node.right.is_none() {
                            proof {
                                assert(Self::link_entries(node.right) =~= Map::empty());
                            }
                            *link = node.left;
                        } else {
                            let successor = Self::take_leftmost(&mut node.right);
                            proof {
                                let succ_key = successor.spec_key();
                                T::lt_irreflexive(succ_key);
                                if Self::link_entries(node.left).dom().contains(succ_key) {
                                    T::lt_transitive(succ_key, *key, succ_key);
                                }
                                assert forall|k: T::K|
                                    #[trigger] Self::link_entries(node.left).dom().contains(k)
                                        implies T::lt(k, succ_key) by {
                                    T::lt_transitive(k, *key, succ_key);
                                }
                            }
                            node.data = successor;
                            *link = Some(node);
                        }
                    },
                    Cmp::Lt => {
                        proof {
                            T::lt_irreflexive(*key);
                            if Self::link_entries(node.right).dom().contains(*key) {
                                T::lt_transitive(*key, node.data.spec_key(), *key);
                            }
                        }
                        Self::delete_from_link(&mut node.left, key);
                        *link = Some(node);
                    },
                    Cmp::Gt => {
                        proof {
                            T::lt_irreflexive(*key);
                            if Self::link_entries(node.left).dom().contains(*key) {
                                T::lt_transitive(*key, node.data.spec_key(), *key);
                            }
                        }
                        Self::delete_from_link(&mut node.right, key);
                        *link = Some(node);
                    },
                }
            },
        }
    }
}

impl<T: Key> BST<T> {
    /// Removes the key's element, if present; deleting an absent key leaves
    /// the tree exactly as it was.
    pub fn delete(&mut self, key: &T::K)
        ensures
            final(self).well_formed(),
            final(self)@ == old(self)@.remove(*key),
            !old(self)@.dom().contains(*key) ==> *final(self) == *old(self),
    {
        proof {
            use_type_invariant(&*self);
        }
        let mut root = None;
        core::mem::swap(&mut root, &mut self.root);
        Node::<T>::delete_from_link(&mut root, key);
        self.root = root;
    }

    /// Inserts the element at the slot its key selects. Where that key is
    /// already present, the occupant's element is overwritten whole — the
    /// tree keeps at most one element per key.
    pub fn insert(&mut self, data: T)
        ensures
            final(self).well_formed(),
            final(self)@ == old(self)@.insert(data.spec_key(), data),
    {
        proof {
            use_type_invariant(&*self);
        }
        let mut root = None;
        core::mem::swap(&mut root, &mut self.root);
        Node::<T>::insert_into_link(&mut root, data);
        self.root = root;
    }

    /// Looks the key up; an absent key is a negative result, not an error.
    pub fn find(&self, key: &T::K) -> (found: Option<&T>)
        ensures
            (match found {
                Some(data) => self@.dom().contains(*key) && *data == self@[*key],
                None => !self@.dom().contains(*key),
            }),
    {
        proof {
            use_type_invariant(&*self);
        }
        Node::<T>::find_in_link(&self.root, key)
    }
}

impl<T: Key> Node<T> {
    /// The in-order traversal of the subtree under a slot: left subtree,
    /// then the node's own element, then the right subtree.
    spec fn link_seq(link: Link<T>) -> Seq<T>
        decreases link,
    {
        match link {
            None => Seq::empty(),
            Some(node) => Self::link_seq(node.left) + seq![node.data] + Self::link_seq(
                node.right,
            ),
        }
    }

    /// Every element of the traversal carries a key the subtree's map knows.
    proof fn lemma_link_seq_keys_in_entries(link: Link<T>)
        ensures
            forall|i: int|
                0 <= i < Self::link_seq(link).len() ==> Self::link_entries(link).dom().contains(
                    (#[trigger] Self::link_seq(link)[i]).spec_key(),
                ),
        decreases link,
    {
        match link {
            None => {},
            Some(node) => {
                Self::lemma_link_seq_keys_in_entries(node.left);
                Self::lemma_link_seq_keys_in_entries(node.right);
                let sl = Self::link_seq(node.left);
                let sr = Self::link_seq(node.right);
                let s = Self::link_seq(link);
                assert forall|i: int| 0 <= i < s.len() implies Self::link_entries(
                    link,
                ).dom().contains((#[trigger] s[i]).spec_key()) by {
                    if i < sl.len() {
                        assert(s[i] == sl[i]);
                    } else if i == sl.len() {
                        assert(s[i] == node.data);
                    } else {
                        assert(s[i] == sr[i - sl.len() - 1]);
                    }
                }
            },
        }
    }

    /// In a subtree that obeys the ordering, the in-order traversal is
    /// strictly increasing in key.
    proof fn lemma_link_seq_sorted(link: Link<T>)
        requires
            Self::link_ordered(link),
        ensures
            forall|i: int, j: int|
                0 <= i < j < Self::link_seq(link).len() ==> T::lt(
                    (#[trigger] Self::link_seq(link)[i]).spec_key(),
                    (#[trigger] Self::link_seq(link)[j]).spec_key(),
                ),
        decreases link,
    {
        match link {
            None => {},
            Some(node) => {
                Self::lemma_link_seq_sorted(node.left);
                Self::lemma_link_seq_sorted(node.right);
                Self::lemma_link_seq_keys_in_entries(node.left);
                Self::lemma_link_seq_keys_in_entries(node.right);
                let sl = Self::link_seq(node.left);
                let sr = Self::link_seq(node.right);
                let s = Self::link_seq(link);
                let node_key = node.data.spec_key();
                assert forall|i: int, j: int| 0 <= i < j < s.len() implies T::lt(
                    (#[trigger] s[i]).spec_key(),
                    (#[trigger] s[j]).spec_key(),
                ) by {
                    if i < sl.len() {
                        assert(s[i] == sl[i]);
                        if j < sl.len() {
                            assert(s[j] == sl[j]);
                        } else if j == sl.len() {
                            assert(s[j] == node.data);
                        } else {
                            assert(s[j] == sr[j - sl.len() - 1]);
                            T::lt_transitive(sl[i].spec_key(), node_key, s[j].spec_key());
                        }
                    } else if i == sl.len() {
                        assert(s[i] == node.data);
                        assert(s[j] == sr[j - sl.len() - 1]);
                    } else {
                        assert(s[i] == sr[i - sl.len() - 1]);
                        assert(s[j] == sr[j - sl.len() - 1]);
                    }
                }
            },
        }
    }
}

impl<T: Key> BST<T> {
    /// The in-order traversal of the whole tree, as specifications see it.
    pub closed spec fn in_order(self) -> Seq<T> {
        Node::<T>::link_seq(self.root)
    }

    /// Ordering invariant: in a well-formed tree — and every tree the
    /// operations hand out is well-formed — the in-order traversal yields
    /// elements with strictly increasing keys.
    pub proof fn lemma_in_order_sorted(self)
        requires
            self.well_formed(),
        ensures
            forall|i: int, j: int|
                0 <= i < j < self.in_order().len() ==> T::lt(
                    (#[trigger] self.in_order()[i]).spec_key(),
                    (#[trigger] self.in_order()[j]).spec_key(),
                ),
    {
        Node::<T>::lemma_link_seq_sorted(self.root);
    }
}

} // verus!
