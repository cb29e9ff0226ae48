//! A generic ordered set kept as an unbalanced binary search tree, with three
//! in-order iterators: one that borrows, one that borrows mutably and one
//! that consumes the tree.

use crate::order::{lemma_order_laws, lt, total_order};
use core::cmp::Ordering;
use vstd::prelude::*;
use vstd::std_specs::cmp::OrdSpec;

verus! {

type Link<T> = Option<Box<Node<T>>>;

#[derive(Debug)]
struct Node<T> {
    elem: T,
    left: Link<T>,
    right: Link<T>,
}

/// An ordered set of distinct values, without balancing.
#[derive(Debug)]
pub struct BST<T> {
    root: Link<T>,
}

spec fn elems_of<T>(link: Link<T>) -> Set<T>
    decreases link,
{
    match link {
        None => Set::empty(),
        Some(n) => elems_of(n.left).union(elems_of(n.right)).insert(n.elem),
    }
}

spec fn in_order_of<T>(link: Link<T>) -> Seq<T>
    decreases link,
{
    match link {
        None => Seq::empty(),
        Some(n) => in_order_of(n.left) + seq![n.elem] + in_order_of(n.right),
    }
}

/// Every value left of a node comes before it, every value right of it after.
spec fn ordered<T: Ord>(link: Link<T>) -> bool
    decreases link,
{
    match link {
        None => true,
        Some(n) => {
            &&& forall|x: T| #[trigger] elems_of(n.left).contains(x) ==> lt(x, n.elem)
            &&& forall|x: T| #[trigger] elems_of(n.right).contains(x) ==> lt(n.elem, x)
            &&& ordered(n.left)
            &&& ordered(n.right)
        }
    }
}

/// Each value of `s` comes strictly before every later one.
pub open spec fn strictly_ascending<T: Ord>(s: Seq<T>) -> bool {
    forall|i: int, j: int| 0 <= i < j < s.len() ==> lt(#[trigger] s[i], #[trigger] s[j])
}

proof fn lemma_members<T>(link: Link<T>)
    ensures
        forall|x: T| #[trigger] in_order_of(link).contains(x) <==> elems_of(link).contains(x),
        in_order_of(link).to_set() == elems_of(link),
        elems_of(link).finite(),
    decreases link,
{
    match link {
        None => {
            assert(in_order_of(link).to_set() =~= elems_of(link));
        },
        Some(n) => {
            lemma_members(n.left);
            lemma_members(n.right);
            let a = in_order_of(n.left);
            let b = in_order_of(n.right);
            let s = in_order_of(link);
            assert(s == a + seq![n.elem] + b);
            assert forall|x: T| #[trigger] s.contains(x) <==> elems_of(link).contains(x) by {
                if s.contains(x) {
                    let k = choose|k: int| 0 <= k < s.len() && s[k] == x;
                    if k < a.len() {
                        assert(a[k] == x);
                        assert(a.contains(x));
                    } else if k > a.len() {
                        assert(b[k - a.len() - 1] == x);
                        assert(b.contains(x));
                    }
                }
                if elems_of(n.left).contains(x) {
                    assert(a.contains(x));
                    let k = choose|k: int| 0 <= k < a.len() && a[k] == x;
                    assert(s[k] == x);
                }
                if elems_of(n.right).contains(x) {
                    assert(b.contains(x));
                    let k = choose|k: int| 0 <= k < b.len() && b[k] == x;
                    assert(s[k + a.len() + 1] == x);
                }
                if x == n.elem {
                    assert(s[a.len() as int] == x);
                }
            }
            assert(in_order_of(link).to_set() =~= elems_of(link));
        },
    }
}

proof fn lemma_in_order<T: Ord>(link: Link<T>)
    requires
        total_order::<T>(),
        ordered(link),
    ensures
        strictly_ascending(in_order_of(link)),
    decreases link,
{
    lemma_order_laws::<T>();
    match link {
        None => {},
        Some(n) => {
            lemma_in_order(n.left);
            lemma_in_order(n.right);
            lemma_members(n.left);
            lemma_members(n.right);
            let a = in_order_of(n.left);
            let b = in_order_of(n.right);
            let s = in_order_of(link);
            assert(s == a + seq![n.elem] + b);
            assert forall|i: int, j: int| 0 <= i < j < s.len() implies lt(
                #[trigger] s[i],
                #[trigger] s[j],
            ) by {
                let m = a.len() as int;
                if i < m {
                    assert(a.contains(s[i]));
                }
                if j < m {
                    assert(a[i] == s[i] && a[j] == s[j]);
                } else if j == m {
                } else {
                    assert(b.contains(s[j]));
                    assert(s[j] == b[j - m - 1]);
                    if i > m {
                        assert(s[i] == b[i - m - 1]);
                    } else if i < m {
                        assert(lt(s[i], n.elem));
                    }
                }
            }
        },
    }
}

proof fn lemma_ascending_ordered<T: Ord>(link: Link<T>)
    requires
        total_order::<T>(),
        strictly_ascending(in_order_of(link)),
    ensures
        ordered(link),
    decreases link,
{
    match link {
        None => {},
        Some(n) => {
            let a = in_order_of(n.left);
            let b = in_order_of(n.right);
            let s = in_order_of(link);
            assert(s == a + seq![n.elem] + b);
            let m = a.len() as int;
            assert forall|i: int, j: int| 0 <= i < j < a.len() implies lt(
                #[trigger] a[i],
                #[trigger] a[j],
            ) by {
                assert(s[i] == a[i] && s[j] == a[j]);
            }
            assert forall|i: int, j: int| 0 <= i < j < b.len() implies lt(
                #[trigger] b[i],
                #[trigger] b[j],
            ) by {
                assert(s[m + 1 + i] == b[i] && s[m + 1 + j] == b[j]);
            }
            lemma_ascending_ordered(n.left);
            lemma_ascending_ordered(n.right);
            lemma_members(n.left);
            lemma_members(n.right);
            assert forall|x: T| #[trigger] elems_of(n.left).contains(x) implies lt(x, n.elem) by {
                assert(a.contains(x));
                let k = choose|k: int| 0 <= k < a.len() && a[k] == x;
                assert(s[k] == x && s[m] == n.elem);
            }
            assert forall|x: T| #[trigger] elems_of(n.right).contains(x) implies lt(n.elem, x) by {
                assert(b.contains(x));
                let k = choose|k: int| 0 <= k < b.len() && b[k] == x;
                assert(s[m + 1 + k] == x && s[m] == n.elem);
            }
        },
    }
}

/// The number of nodes of an ordered tree is the number of values it holds.
proof fn lemma_node_count<T: Ord>(link: Link<T>)
    requires
        total_order::<T>(),
        ordered(link),
    ensures
        in_order_of(link).len() == elems_of(link).len(),
        in_order_of(link).no_duplicates(),
        elems_of(link).finite(),
{
    lemma_order_laws::<T>();
    lemma_in_order(link);
    lemma_members(link);
    let s = in_order_of(link);
    assert forall|i: int, j: int| 0 <= i < s.len() && 0 <= j < s.len() && i != j implies s[i]
        != s[j] by {
        if i < j {
            assert(lt(s[i], s[j]));
        } else {
            assert(lt(s[j], s[i]));
        }
    }
    s.unique_seq_to_set();
}

fn search_link<T: Ord>(link: &Link<T>, elem: &T) -> (r: bool)
    requires
        total_order::<T>(),
        ordered(*link),
    ensures
        r == elems_of(*link).contains(*elem),
    decreases *link,
{
    match link {
        None => false,
        Some(node) => {
            proof {
                lemma_order_laws::<T>();
            }
            match elem.cmp(&node.elem) {
                Ordering::Equal => true,
                Ordering::Less => {
                    proof {
                        assert(!elems_of(node.right).contains(*elem));
                    }
                    search_link(&node.left, elem)
                },
                Ordering::Greater => {
                    proof {
                        assert(!elems_of(node.left).contains(*elem));
                    }
                    search_link(&node.right, elem)
                },
            }
        },
    }
}

/// `link` with a new leaf holding `e` at the end of `e`'s search path, or
/// `link` itself when `e` is already on that path.
spec fn with_leaf<T: Ord>(link: Link<T>, e: T) -> Link<T>
    decreases link,
{
    match link {
        None => Some(Box::new(Node { elem: e, left: None, right: None })),
        Some(n) => if e == n.elem {
            link
        } else if lt(e, n.elem) {
            Some(Box::new(Node { elem: n.elem, left: with_leaf(n.left, e), right: n.right }))
        } else {
            Some(Box::new(Node { elem: n.elem, left: n.left, right: with_leaf(n.right, e) }))
        },
    }
}

fn insert_link<T: Ord>(link: &mut Link<T>, elem: T) -> (r: bool)
    requires
        total_order::<T>(),
        ordered(*old(link)),
    ensures
        ordered(*final(link)),
        elems_of(*final(link)) == elems_of(*old(link)).insert(elem),
        r == !elems_of(*old(link)).contains(elem),
        *final(link) == with_leaf(*old(link), elem),
        !r ==> *final(link) == *old(link),
    decreases *old(link),
{
    proof {
        lemma_order_laws::<T>();
    }
    match link.take() {
        None => {
            *link = Some(Box::new(Node { elem, left: None, right: None }));
            proof {
                assert(elems_of(*link) =~= elems_of(*old(link)).insert(elem));
            }
            true
        },
        Some(mut node) => {
            let ghost e = elem;
            let ghost before = *node;
            let r = match elem.cmp(&node.elem) {
                Ordering::Equal => false,
                Ordering::Less => {
                    proof {
                        assert(!elems_of(node.right).contains(e));
                    }
                    insert_link(&mut node.left, elem)
                },
                Ordering::Greater => {
                    proof {
                        assert(!elems_of(node.left).contains(e));
                    }
                    insert_link(&mut node.right, elem)
                },
            };
            *link = Some(node);
            proof {
                assert(elems_of(*link) =~= elems_of(*old(link)).insert(e));
                assert(e != before.elem ==> (lt(e, before.elem) <==> e.cmp_spec(&before.elem)
                    == Ordering::Less));
            }
            r
        },
    }
}

impl<T: Ord> View for BST<T> {
    type V = Set<T>;

    /// The values held in the tree.
    closed spec fn view(&self) -> Set<T> {
        elems_of(self.root)
    }
}

impl<T: Ord> BST<T> {
    /// The tree's ordering invariant, over a totally ordered `T`.
    pub closed spec fn wf(&self) -> bool {
        &&& total_order::<T>()
        &&& ordered(self.root)
    }

    /// The values of the tree in the order an in-order walk visits them.
    pub closed spec fn in_order(&self) -> Seq<T> {
        in_order_of(self.root)
    }

    /// The tree with a new leaf holding `e` at the end of `e`'s search path,
    /// every other node as it was; the tree itself when it holds `e`.
    pub closed spec fn with_leaf(self, e: T) -> Self {
        BST { root: with_leaf(self.root, e) }
    }

    /// Creates an empty tree.
    pub fn new() -> (r: Self)
        requires
            total_order::<T>(),
        ensures
            r.wf(),
            r@ == Set::<T>::empty(),
            r.in_order() == Seq::<T>::empty(),
    {
        BST { root: None }
    }

    /// Adds `elem`; answers `false`, and leaves the tree as it was, when it
    /// is already there.
    pub fn insert(&mut self, elem: T) -> (r: bool)
        requires
            old(self).wf(),
        ensures
            final(self).wf(),
            final(self)@ == old(self)@.insert(elem),
            r == !old(self)@.contains(elem),
            *final(self) == old(self).with_leaf(elem),
            !r ==> *final(self) == *old(self),
            final(self).in_order().len() == old(self).in_order().len() + if r {
                1int
            } else {
                0int
            },
    {
        let r = insert_link(&mut self.root, elem);
        proof {
            lemma_node_count(old(self).root);
            lemma_node_count(self.root);
        }
        r
    }

    /// Whether `elem` is in the tree.
    pub fn search(&self, elem: T) -> (r: bool)
        requires
            self.wf(),
        ensures
            r == self@.contains(elem),
    {
        search_link(&self.root, &elem)
    }
}

/// What is left to visit: each node on the stack, top first, then the
/// in-order walk of its right subtree.
spec fn pending<T>(stack: Seq<Box<Node<T>>>) -> Seq<T>
    decreases stack.len(),
{
    if stack.len() == 0 {
        Seq::empty()
    } else {
        seq![stack.last().elem] + in_order_of(stack.last().right) + pending(stack.drop_last())
    }
}

spec fn pending_ref<T>(stack: Seq<&Node<T>>) -> Seq<T>
    decreases stack.len(),
{
    if stack.len() == 0 {
        Seq::empty()
    } else {
        seq![stack.last().elem] + in_order_of(stack.last().right) + pending_ref(
            stack.drop_last(),
        )
    }
}

/// Consumes a tree, handing out its values in ascending order.
pub struct IntoIter<T> {
    stack: Vec<Box<Node<T>>>,
}

/// Walks a borrowed tree, handing out references to its values in ascending
/// order.
pub struct Iter<'a, T> {
    stack: Vec<&'a Node<T>>,
}

impl<T> View for IntoIter<T> {
    type V = Seq<T>;

    /// The values still to come, in order.
    closed spec fn view(&self) -> Seq<T> {
        pending(self.stack@)
    }
}

impl<'a, T> View for Iter<'a, T> {
    type V = Seq<T>;

    /// The values still to come, in order.
    closed spec fn view(&self) -> Seq<T> {
        pending_ref(self.stack@)
    }
}

fn push_left_spine<T>(stack: &mut Vec<Box<Node<T>>>, link: Link<T>)
    ensures
        pending(final(stack)@) == in_order_of(link) + pending(old(stack)@),
{
    let mut cur = link;
    while cur.is_some()
        invariant
            in_order_of(cur) + pending(stack@) == in_order_of(link) + pending(old(stack)@),
        decreases in_order_of(cur).len(),
    {
        let ghost s0 = stack@;
        let ghost c0 = cur;
        let mut node = cur.unwrap();
        cur = node.left.take();
        stack.push(node);
        proof {
            assert(stack@.drop_last() =~= s0);
            assert(in_order_of(c0) == in_order_of(cur) + seq![node.elem] + in_order_of(node.right));
            assert(pending(stack@) == seq![node.elem] + in_order_of(node.right) + pending(s0));
            assert(in_order_of(cur) + pending(stack@) =~= in_order_of(c0) + pending(s0));
        }
    }
    proof {
        assert(in_order_of(cur) + pending(stack@) =~= pending(stack@));
    }
}

fn push_left_spine_ref<'a, T>(stack: &mut Vec<&'a Node<T>>, link: &'a Link<T>)
    ensures
        pending_ref(final(stack)@) == in_order_of(*link) + pending_ref(old(stack)@),
{
    let mut cur: &'a Link<T> = link;
    while cur.is_some()
        invariant
            in_order_of(*cur) + pending_ref(stack@) == in_order_of(*link) + pending_ref(
                old(stack)@,
            ),
        decreases in_order_of(*cur).len(),
    {
        let node: &'a Node<T> = match cur {
            Some(b) => &**b,
            None => {
                return;
            },
        };
        let ghost s0 = stack@;
        let ghost c0 = *cur;
        stack.push(node);
        cur = &node.left;
        proof {
            assert(stack@.drop_last() =~= s0);
            assert(in_order_of(c0) == in_order_of(*cur) + seq![node.elem] + in_order_of(
                node.right,
            ));
            assert(pending_ref(stack@) == seq![node.elem] + in_order_of(node.right)
                + pending_ref(s0));
            assert(in_order_of(*cur) + pending_ref(stack@) =~= in_order_of(c0) + pending_ref(s0));
        }
    }
    proof {
        assert(in_order_of(*cur) + pending_ref(stack@) =~= pending_ref(stack@));
    }
}

impl<T> IntoIter<T> {
    /// Hands out the next value in ascending order, or `None` once all have
    /// been handed out.
    pub fn next(&mut self) -> (r: Option<T>)
        ensures
            old(self)@.len() == 0 ==> r is None && final(self)@ == old(self)@,
            old(self)@.len() > 0 ==> r == Some(old(self)@[0]) && final(self)@
                == old(self)@.drop_first(),
    {
        match self.stack.pop() {
            None => None,
            Some(boxed) => {
                let ghost top = *boxed;
                let node = *boxed;
                let Node { elem, left: _, right } = node;
                push_left_spine(&mut self.stack, right);
                proof {
                    assert(old(self)@ =~= seq![top.elem] + pending(self.stack@));
                }
                Some(elem)
            },
        }
    }
}

impl<'a, T> Iter<'a, T> {
    /// Hands out a reference to the next value in ascending order, or
    /// `None` once all have been handed out.
    pub fn next(&mut self) -> (r: Option<&'a T>)
        ensures
            old(self)@.len() == 0 ==> r is None && final(self)@ == old(self)@,
            old(self)@.len() > 0 ==> r == Some(&old(self)@[0]) && final(self)@
                == old(self)@.drop_first(),
    {
        match self.stack.pop() {
            None => None,
            Some(node) => {
                push_left_spine_ref(&mut self.stack, &node.right);
                proof {
                    assert(old(self)@ =~= seq![node.elem] + pending_ref(self.stack@));
                }
                Some(&node.elem)
            },
        }
    }
}

/// Walks a mutably borrowed tree, handing out mutable references to its
/// values in ascending order. The references are gathered when the walk
/// starts; the tree's shape cannot change while they are out.
pub struct IterMut<'a, T> {
    items: Vec<&'a mut T>,
}

impl<'a, T> IterMut<'a, T> {
    /// The reference that the `i`-th call of `next` from now hands out.
    pub closed spec fn slot(&self, i: int) -> &'a mut T {
        self.items@[self.items@.len() - 1 - i]
    }

    /// How many references are still to come.
    pub closed spec fn remaining(&self) -> nat {
        self.items@.len()
    }

    /// Hands out a mutable reference to the next value in ascending order,
    /// or `None` once all have been handed out.
    pub fn next(&mut self) -> (r: Option<&'a mut T>)
        ensures
            old(self).remaining() == 0 ==> r is None && final(self).remaining() == 0,
            old(self)@.len() == 0 ==> r is None && final(self)@ == old(self)@,
            old(self)@.len() > 0 ==> r is Some && *r->0 == old(self)@[0] && final(self)@
                == old(self)@.drop_first(),
            old(self).remaining() > 0 ==> {
                &&& r == Some(old(self).slot(0))
                &&& final(self).remaining() == old(self).remaining() - 1
                &&& forall|i: int|
                    0 <= i < final(self).remaining() ==> #[trigger] final(self).slot(i)
                        == old(self).slot(i + 1)
            },
    {
        let r = self.items.pop();
        proof {
            if old(self).remaining() > 0 {
                assert(final(self)@ =~= old(self)@.drop_first());
            } else {
                assert(final(self)@ =~= old(self)@);
            }
        }
        r
    }
}

/// Once a mutable iterator is done with, each reference it still held
/// leaves its value as it was.
pub proof fn lemma_unused_slots_unchanged<'a, T>(it: IterMut<'a, T>)
    requires
        has_resolved(it),
    ensures
        forall|i: int| 0 <= i < it.remaining() ==> *final(#[trigger] it.slot(i)) == *it.slot(i),
{
    assert forall|i: int| 0 <= i < it.remaining() implies *final(#[trigger] it.slot(i))
        == *it.slot(i) by {
        assert(has_resolved(it.items));
        assert(has_resolved(it.items@[it.items@.len() - 1 - i]));
    }
}

impl<'a, T> View for IterMut<'a, T> {
    type V = Seq<T>;

    /// The current values behind the references still to come, in order.
    open spec fn view(&self) -> Seq<T> {
        Seq::new(self.remaining(), |i: int| *self.slot(i))
    }
}

/// Pushes onto `out` a reference to each value of `link`, largest first.
/// This recurses once per level of the tree, as `insert` and `search` do:
/// the prophecy that ties each reference to the tree's final value is stated
/// per call, which a loop over an explicit stack could not carry.
fn collect_rev<'a, T>(link: &'a mut Link<T>, out: &mut Vec<&'a mut T>)
    ensures
        final(out)@.len() == old(out)@.len() + in_order_of(*old(link)).len(),
        forall|j: int| 0 <= j < old(out)@.len() ==> final(out)@[j] == old(out)@[j],
        in_order_of(*final(link)).len() == in_order_of(*old(link)).len(),
        forall|i: int|
            0 <= i < in_order_of(*old(link)).len() ==> {
                let item = #[trigger] final(out)@[final(out)@.len() - 1 - i];
                &&& *item == in_order_of(*old(link))[i]
                &&& *final(item) == in_order_of(*final(link))[i]
            },
    decreases *old(link),
{
    let ghost flink = *final(link);
    match link {
        None => {},
        Some(b) => {
            let node: &'a mut Node<T> = &mut **b;
            let Node { elem, left, right } = node;
            let ghost e0 = *elem;
            let ghost l0 = *left;
            let ghost r0 = *right;
            let ghost fe = *final(elem);
            let ghost fl = *final(left);
            let ghost fr = *final(right);
            let ghost o = old(out)@.len();
            collect_rev(right, out);
            let ghost mid = out@.len();
            out.push(elem);
            collect_rev(left, out);
            proof {
                let a = in_order_of(l0);
                let b = in_order_of(r0);
                assert(in_order_of(*old(link)) == a + seq![e0] + b);
                assert(in_order_of(flink) == in_order_of(fl) + seq![fe] + in_order_of(fr));
                let n = out@.len();
                assert forall|i: int| 0 <= i < in_order_of(*old(link)).len() implies {
                    let item = #[trigger] out@[n - 1 - i];
                    &&& *item == in_order_of(*old(link))[i]
                    &&& *final(item) == in_order_of(flink)[i]
                } by {
                    if i < a.len() {
                        assert(out@[n - 1 - i] == out@[(mid + 1) + a.len() - 1 - i]);
                    } else if i == a.len() {
                        assert(out@[n - 1 - i] == out@[mid as int]);
                    } else {
                        let k = i - a.len() - 1;
                        assert(out@[n - 1 - i] == out@[o + b.len() - 1 - k]);
                    }
                }
            }
        },
    }
}

impl<T: Ord> BST<T> {
    /// Borrows the tree mutably as an iterator over mutable references to
    /// its values in ascending order. Writing through the `i`-th reference
    /// changes the `i`-th value of the tree in place and nothing else.
    pub fn iter_mut(&mut self) -> (r: IterMut<'_, T>)
        ensures
            r@ == old(self).in_order(),
            r.remaining() == old(self).in_order().len(),
            final(self).in_order().len() == old(self).in_order().len(),
            forall|i: int|
                0 <= i < old(self).in_order().len() ==> #[trigger] final(self).in_order()[i]
                    == *final(r.slot(i)),
    {
        let mut items: Vec<&mut T> = Vec::new();
        collect_rev(&mut self.root, &mut items);
        let r = IterMut { items };
        proof {
            assert(r@ =~= old(self).in_order());
        }
        r
    }

    /// Consumes the tree into an iterator over its values in ascending order.
    pub fn into_iter(self) -> (r: IntoIter<T>)
        ensures
            r@ == self.in_order(),
    {
        let mut stack: Vec<Box<Node<T>>> = Vec::new();
        push_left_spine(&mut stack, self.root);
        proof {
            assert(pending(stack@) =~= in_order_of(self.root));
        }
        IntoIter { stack }
    }

    /// Borrows the tree as an iterator over references to its values in
    /// ascending order; the tree is unchanged.
    pub fn iter(&self) -> (r: Iter<'_, T>)
        ensures
            r@ == self.in_order(),
    {
        let mut stack: Vec<&Node<T>> = Vec::new();
        push_left_spine_ref(&mut stack, &self.root);
        proof {
            assert(pending_ref(stack@) =~= in_order_of(self.root));
        }
        Iter { stack }
    }
}

/// The values a tree holds after each value of `s` is inserted in turn into
/// a tree that held `start`.
pub open spec fn after_inserts<T>(start: Set<T>, s: Seq<T>) -> Set<T>
    decreases s.len(),
{
    if s.len() == 0 {
        start
    } else {
        after_inserts(start, s.drop_last()).insert(s.last())
    }
}

proof fn lemma_after_inserts<T>(s: Seq<T>)
    ensures
        after_inserts(Set::empty(), s) == s.to_set(),
    decreases s.len(),
{
    if s.len() > 0 {
        lemma_after_inserts(s.drop_last());
        assert forall|x: T| #[trigger] s.contains(x) <==> s.drop_last().contains(x) || x
            == s.last() by {
            if s.contains(x) && x != s.last() {
                let k = choose|k: int| 0 <= k < s.len() && s[k] == x;
                assert(s.drop_last()[k] == x);
            }
            if s.drop_last().contains(x) {
                let k = choose|k: int| 0 <= k < s.len() - 1 && s.drop_last()[k] == x;
                assert(s[k] == x);
            }
            if x == s.last() {
                assert(s[s.len() - 1] == x);
            }
        }
    }
    assert(after_inserts(Set::empty(), s) =~= s.to_set());
}

/// Once the values of `s` have been inserted one after another into an
/// empty tree, a search finds exactly those values; inserting more values
/// afterwards never makes one of them disappear.
pub proof fn lemma_search_finds_inserted<T>(s: Seq<T>, later: Seq<T>, x: T)
    ensures
        after_inserts(Set::empty(), s).contains(x) <==> s.contains(x),
        s.contains(x) ==> after_inserts(Set::empty(), s + later).contains(x),
{
    lemma_after_inserts(s);
    lemma_after_inserts(s + later);
    if s.contains(x) {
        let k = choose|k: int| 0 <= k < s.len() && s[k] == x;
        assert((s + later)[k] == x);
    }
}

/// Inserting the same value twice: the second insertion finds it already
/// there, and changes neither the values nor the number of nodes.
pub proof fn lemma_insert_twice<T: Ord>(t0: BST<T>, t1: BST<T>, t2: BST<T>, e: T)
    requires
        t0.wf(),
        t1.wf(),
        t2.wf(),
        t1@ == t0@.insert(e),
        t2@ == t1@.insert(e),
    ensures
        t1@.contains(e),
        t2@ == t1@,
        t2.in_order().len() == t1.in_order().len(),
{
    assert(t2@ =~= t1@);
    lemma_node_count(t1.root);
    lemma_node_count(t2.root);
}

/// Inserting a value that the tree does not hold adds exactly one node.
pub proof fn lemma_insert_fresh<T: Ord>(t0: BST<T>, t1: BST<T>, e: T)
    requires
        t0.wf(),
        t1.wf(),
        !t0@.contains(e),
        t1@ == t0@.insert(e),
    ensures
        t1@.contains(e),
        t1.in_order().len() == t0.in_order().len() + 1,
{
    lemma_node_count(t0.root);
    lemma_node_count(t1.root);
}

/// The in-order walk of a tree, which each of its iterators follows, is
/// strictly ascending and visits each value of the tree exactly once; for a
/// tree built by inserting the values of `s` into an empty tree, it has as
/// many steps as `s` has distinct values.
pub proof fn lemma_sorted_traversal<T: Ord>(t: BST<T>, s: Seq<T>)
    requires
        t.wf(),
    ensures
        strictly_ascending(t.in_order()),
        t.in_order().to_set() == t@,
        t.in_order().len() == t@.len(),
        t@ == after_inserts(Set::empty(), s) ==> t.in_order().len() == s.to_set().len(),
{
    lemma_in_order(t.root);
    lemma_members(t.root);
    lemma_node_count(t.root);
    lemma_after_inserts(s);
}

/// A tree whose in-order walk is that of a valid tree, as after a walk with
/// `iter_mut` that wrote nothing, is valid and holds the same values.
pub proof fn lemma_same_walk_same_tree<T: Ord>(before: BST<T>, after: BST<T>)
    requires
        before.wf(),
        after.in_order() == before.in_order(),
    ensures
        after.wf(),
        after@ == before@,
{
    lemma_in_order(before.root);
    lemma_ascending_ordered(after.root);
    lemma_members(before.root);
    lemma_members(after.root);
}

/// Writing `v` over the `i`-th value of the in-order walk, where the walk
/// stays strictly ascending, leaves a valid tree in which a search finds `v`
/// and no longer finds the value it replaced.
pub proof fn lemma_mutation_visible<T: Ord>(before: BST<T>, after: BST<T>, i: int, v: T)
    requires
        before.wf(),
        0 <= i < before.in_order().len(),
        after.in_order() == before.in_order().update(i, v),
        strictly_ascending(after.in_order()),
    ensures
        after.wf(),
        after@.contains(v),
        v != before.in_order()[i] ==> !after@.contains(before.in_order()[i]),
        after@ == before@.remove(before.in_order()[i]).insert(v),
{
    lemma_order_laws::<T>();
    lemma_in_order(before.root);
    lemma_ascending_ordered(after.root);
    lemma_members(before.root);
    lemma_members(after.root);
    let a = before.in_order();
    let b = after.in_order();
    assert(b[i] == v);
    assert forall|x: T| #[trigger] after@.contains(x) <==> before@.remove(a[i]).insert(v).contains(
        x,
    ) by {
        if b.contains(x) && x != v {
            let k = choose|k: int| 0 <= k < b.len() && b[k] == x;
            assert(a[k] == x);
            assert(k != i);
            assert(lt(a[k], a[i]) || lt(a[i], a[k]));
        }
        if a.contains(x) && x != a[i] && x != v {
            let k = choose|k: int| 0 <= k < a.len() && a[k] == x;
            assert(b[k] == x);
        }
    }
    assert(after@ =~= before@.remove(a[i]).insert(v));
}

} // verus!
