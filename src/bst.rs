//! A plain, unbalanced binary search tree. Equal keys are kept: a key equal to a
//! node's key goes to its right subtree.
use vstd::multiset::Multiset;
use vstd::prelude::*;

verus! {

/// One vertex of the tree.
#[derive(Debug)]
pub struct Node {
    pub value: i32,
    pub left: Option<Box<Node>>,
    pub right: Option<Box<Node>>,
}

/// Keys held by a subtree, each as often as it was inserted.
pub open spec fn contents(t: Option<Box<Node>>) -> Multiset<i32>
    decreases t,
{
    match t {
        None => Multiset::empty(),
        Some(n) => contents(n.left).add(contents(n.right)).insert(n.value),
    }
}

/// Smaller keys on the left, keys at least as large on the right, at every node.
pub open spec fn ordered(t: Option<Box<Node>>) -> bool
    decreases t,
{
    match t {
        None => true,
        Some(n) => {
            &&& forall|k: i32| #[trigger] contents(n.left).contains(k) ==> k < n.value
            &&& forall|k: i32| #[trigger] contents(n.right).contains(k) ==> n.value <= k
            &&& ordered(n.left)
            &&& ordered(n.right)
        },
    }
}

/// A binary search tree over `i32` keys, without rebalancing.
#[derive(Debug)]
pub struct BST {
    root: Option<Box<Node>>,
}

impl View for BST {
    type V = Multiset<i32>;

    /// The keys in the tree, with their multiplicities.
    closed spec fn view(&self) -> Multiset<i32> {
        contents(self.root)
    }
}

impl BST {
    #[verifier::type_invariant]
    spec fn well_formed(self) -> bool {
        ordered(self.root)
    }

    /// An empty tree.
    pub fn new() -> (r: Self)
        ensures
            r@ == Multiset::<i32>::empty(),
    {
        BST { root: None }
    }

    /// Whether the tree holds no key.
    pub fn is_empty(&self) -> (r: bool)
        ensures
            r == (self@.len() == 0),
    {
        self.root.is_none()
    }

    /// Adds `value` to the tree; an equal key already there is kept as well.
    pub fn insert(&mut self, value: i32)
        ensures
            final(self)@ == old(self)@.insert(value),
    {
        proof {
            use_type_invariant(&*self);
        }
        let mut root = None;
        std::mem::swap(&mut root, &mut self.root);
        self.root = Some(Self::insert_node(root, value));
    }

    /// Adds `value` below `node`, as a new leaf where the descent ends.
    pub fn insert_node(node: Option<Box<Node>>, value: i32) -> (r: Box<Node>)
        requires
            ordered(node),
        ensures
            ordered(Some(r)),
            contents(Some(r)) == contents(node).insert(value),
        decreases node,
    {
        match node {
            Some(mut n) => {
                let ghost (l, rt) = (n.left, n.right);
                if value < n.value {
                    n.left = Some(Self::insert_node(n.left.take(), value));
                    proof {
                        assert forall|k: i32| #[trigger] contents(n.left).contains(k) implies k
                            < n.value by {
                            if k != value {
                                assert(contents(l).contains(k));
                            }
                        }
                    }
                } else {
                    n.right = Some(Self::insert_node(n.right.take(), value));
                    proof {
                        assert forall|k: i32| #[trigger] contents(n.right).contains(k) implies n.value
                            <= k by {
                            if k != value {
                                assert(contents(rt).contains(k));
                            }
                        }
                    }
                }
                n
            },
            None => Box::new(Node { value, left: None, right: None }),
        }
    }

    /// Whether `value` is in the tree.
    pub fn search(&self, value: i32) -> (r: bool)
        ensures
            r == self@.contains(value),
    {
        proof {
            use_type_invariant(self);
        }
        Self::search_node(&self.root, value)
    }

    /// Whether `value` is in the subtree, found by descending from its root.
    pub fn search_node(node: &Option<Box<Node>>, value: i32) -> (r: bool)
        requires
            ordered(*node),
        ensures
            r == contents(*node).contains(value),
        decreases *node,
    {
        match node {
            Some(n) => {
                if n.value == value {
                    true
                } else if value < n.value {
                    proof {
                        assert(!contents(n.right).contains(value));
                    }
                    Self::search_node(&n.left, value)
                } else {
                    proof {
                        assert(!contents(n.left).contains(value));
                    }
                    Self::search_node(&n.right, value)
                }
            },
            None => false,
        }
    }
}

} // verus!
