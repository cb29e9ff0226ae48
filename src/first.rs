//! A set of `i32` kept as an unbalanced binary search tree whose slots are
//! either empty or own one node.

use vstd::prelude::*;

verus! {

#[derive(Debug)]
enum Link {
    Empty,
    More(Box<Node>),
}

#[derive(Debug)]
struct Node {
    elem: i32,
    left: Link,
    right: Link,
}

/// An ordered set of distinct `i32` values, without balancing.
#[derive(Debug)]
pub struct BST {
    root: Link,
}

impl Link {
    spec fn elems(self) -> Set<i32>
        decreases self,
    {
        match self {
            Link::Empty => Set::empty(),
            Link::More(n) => n.left.elems().union(n.right.elems()).insert(n.elem),
        }
    }

    /// Smaller values lie to the left of each node, larger ones to its right.
    spec fn ordered(self) -> bool
        decreases self,
    {
        match self {
            Link::Empty => true,
            Link::More(n) => {
                &&& forall|x: i32| #[trigger] n.left.elems().contains(x) ==> x < n.elem
                &&& forall|x: i32| #[trigger] n.right.elems().contains(x) ==> n.elem < x
                &&& n.left.ordered()
                &&& n.right.ordered()
            },
        }
    }

    /// This link with a new leaf holding `e` at the end of `e`'s search
    /// path, or the link itself when `e` is already on that path.
    spec fn with_leaf(self, e: i32) -> Link
        decreases self,
    {
        match self {
            Link::Empty => Link::More(Box::new(Node { elem: e, left: Link::Empty, right: Link::Empty })),
            Link::More(n) => if e == n.elem {
                self
            } else if e < n.elem {
                Link::More(Box::new(Node { elem: n.elem, left: n.left.with_leaf(e), right: n.right }))
            } else {
                Link::More(Box::new(Node { elem: n.elem, left: n.left, right: n.right.with_leaf(e) }))
            },
        }
    }

    fn insert(&mut self, elem: i32) -> (r: bool)
        requires
            old(self).ordered(),
        ensures
            final(self).ordered(),
            final(self).elems() == old(self).elems().insert(elem),
            r == !old(self).elems().contains(elem),
            *final(self) == old(self).with_leaf(elem),
            !r ==> *final(self) == *old(self),
        decreases *old(self),
    {
        let mut taken = Link::Empty;
        std::mem::swap(&mut taken, self);
        match taken {
            Link::Empty => {
                *self = Link::More(Box::new(Node { elem, left: Link::Empty, right: Link::Empty }));
                proof {
                    assert(self.elems() =~= old(self).elems().insert(elem));
                }
                true
            },
            Link::More(mut node) => {
                let r = if elem == node.elem {
                    false
                } else if elem < node.elem {
                    assert(!node.right.elems().contains(elem));
                    node.left.insert(elem)
                } else {
                    assert(!node.left.elems().contains(elem));
                    node.right.insert(elem)
                };
                *self = Link::More(node);
                proof {
                    assert(self.elems() =~= old(self).elems().insert(elem));
                }
                r
            },
        }
    }

    fn search(&self, elem: i32) -> (r: bool)
        requires
            self.ordered(),
        ensures
            r == self.elems().contains(elem),
        decreases *self,
    {
        match self {
            Link::Empty => false,
            Link::More(node) => {
                if elem == node.elem {
                    true
                } else if elem < node.elem {
                    assert(!node.right.elems().contains(elem));
                    node.left.search(elem)
                } else {
                    assert(!node.left.elems().contains(elem));
                    node.right.search(elem)
                }
            },
        }
    }
}

impl View for BST {
    type V = Set<i32>;

    /// The values held in the tree.
    closed spec fn view(&self) -> Set<i32> {
        self.root.elems()
    }
}

impl BST {
    /// The tree's ordering invariant.
    pub closed spec fn wf(&self) -> bool {
        self.root.ordered()
    }

    /// The tree with a new leaf holding `e` at the end of `e`'s search path,
    /// every other node as it was; the tree itself when it holds `e`.
    pub closed spec fn with_leaf(self, e: i32) -> Self {
        BST { root: self.root.with_leaf(e) }
    }

    /// Creates an empty tree.
    pub fn new() -> (r: Self)
        ensures
            r.wf(),
            r@ == Set::<i32>::empty(),
    {
        BST { root: Link::Empty }
    }

    /// Adds `elem`; answers `false`, and leaves the tree as it was, when it
    /// is already there.
    pub fn insert(&mut self, elem: i32) -> (r: bool)
        requires
            old(self).wf(),
        ensures
            final(self).wf(),
            final(self)@ == old(self)@.insert(elem),
            r == !old(self)@.contains(elem),
            *final(self) == old(self).with_leaf(elem),
            !r ==> *final(self) == *old(self),
    {
        self.root.insert(elem)
    }

    /// Whether `elem` is in the tree.
    pub fn search(&self, elem: i32) -> (r: bool)
        requires
            self.wf(),
        ensures
            r == self@.contains(elem),
    {
        self.root.search(elem)
    }
}

} // verus!
