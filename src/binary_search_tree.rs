use crate::order::{lemma_total_order, lt, total_order};
use std::cmp::Ordering;
use vstd::prelude::*;

verus! {

/// One node of a [`BinarySearchTree`]: a value and an owning slot for each subtree.
pub struct Node<T> {
    data: T,
    left: Option<Box<Node<T>>>,
    right: Option<Box<Node<T>>>,
}

/// Unbalanced binary search tree of distinct `T` values.
///
/// Every value in a node's left subtree is smaller than the node's value and every
/// value in its right subtree is larger. Adding a value that is already present
/// changes nothing.
pub struct BinarySearchTree<T> {
    root: Option<Box<Node<T>>>,
}

/// The set of values held by a subtree.
spec fn keys_of<T: Ord>(t: Option<Box<Node<T>>>) -> Set<T>
    decreases t,
{
    match t {
        None => Set::empty(),
        Some(n) => keys_of(n.left).union(keys_of(n.right)).insert(n.data),
    }
}

/// The ordering property, holding at every node of the subtree.
spec fn is_search_tree<T: Ord>(t: Option<Box<Node<T>>>) -> bool
    decreases t,
{
    match t {
        None => true,
        Some(n) => {
            &&& is_search_tree(n.left)
            &&& is_search_tree(n.right)
            &&& forall|x: T| #[trigger] keys_of(n.left).contains(x) ==> lt(x, n.data)
            &&& forall|x: T| #[trigger] keys_of(n.right).contains(x) ==> lt(n.data, x)
        },
    }
}

spec fn leaf<T>(v: T) -> Option<Box<Node<T>>> {
    Some(Box::new(Node { data: v, left: None, right: None }))
}

spec fn with_left<T>(n: Box<Node<T>>, l: Option<Box<Node<T>>>) -> Option<Box<Node<T>>> {
    Some(Box::new(Node { data: n.data, left: l, right: n.right }))
}

spec fn with_right<T>(n: Box<Node<T>>, r: Option<Box<Node<T>>>) -> Option<Box<Node<T>>> {
    Some(Box::new(Node { data: n.data, left: n.left, right: r }))
}

/// The subtree after adding `v`: a new leaf where the search for `v` ends, or the
/// same subtree when `v` is already present.
spec fn inserted<T: Ord>(t: Option<Box<Node<T>>>, v: T) -> Option<Box<Node<T>>>
    decreases t,
{
    match t {
        None => leaf(v),
        Some(n) => if lt(v, n.data) {
            with_left(n, inserted(n.left, v))
        } else if lt(n.data, v) {
            with_right(n, inserted(n.right, v))
        } else {
            Some(n)
        },
    }
}

/// The smallest value of a non-empty subtree: the value of its leftmost node.
spec fn leftmost<T: Ord>(t: Option<Box<Node<T>>>) -> T
    decreases t,
{
    match t {
        None => arbitrary(),
        Some(n) => match n.left {
            None => n.data,
            Some(_) => leftmost(n.left),
        },
    }
}

/// The subtree with its leftmost node spliced out (replaced by its right subtree).
spec fn without_leftmost<T: Ord>(t: Option<Box<Node<T>>>) -> Option<Box<Node<T>>>
    decreases t,
{
    match t {
        None => None,
        Some(n) => match n.left {
            None => n.right,
            Some(_) => with_left(n, without_leftmost(n.left)),
        },
    }
}

/// The subtree after deleting `v`. A node without a left child is replaced by its
/// right subtree and one without a right child by its left subtree. A node with
/// two children keeps its place and takes the value of its in-order successor,
/// which is spliced out of the right subtree.
spec fn deleted<T: Ord>(t: Option<Box<Node<T>>>, v: T) -> Option<Box<Node<T>>>
    decreases t,
{
    match t {
        None => None,
        Some(n) => if lt(v, n.data) {
            with_left(n, deleted(n.left, v))
        } else if lt(n.data, v) {
            with_right(n, deleted(n.right, v))
        } else if n.left is None {
            n.right
        } else if n.right is None {
            n.left
        } else {
            Some(
                Box::new(
                    Node { data: leftmost(n.right), left: n.left, right: without_leftmost(n.right) },
                ),
            )
        },
    }
}

/// Left subtree, node, right subtree.
spec fn in_order_of<T: Ord>(t: Option<Box<Node<T>>>) -> Seq<T>
    decreases t,
{
    match t {
        None => Seq::empty(),
        Some(n) => in_order_of(n.left).push(n.data) + in_order_of(n.right),
    }
}

/// Node, left subtree, right subtree.
spec fn pre_order_of<T: Ord>(t: Option<Box<Node<T>>>) -> Seq<T>
    decreases t,
{
    match t {
        None => Seq::empty(),
        Some(n) => seq![n.data] + pre_order_of(n.left) + pre_order_of(n.right),
    }
}

/// Left subtree, right subtree, node.
spec fn post_order_of<T: Ord>(t: Option<Box<Node<T>>>) -> Seq<T>
    decreases t,
{
    match t {
        None => Seq::empty(),
        Some(n) => (post_order_of(n.left) + post_order_of(n.right)).push(n.data),
    }
}

/// The values that a sequence of references points to.
pub open spec fn derefs<T>(s: Seq<&T>) -> Seq<T> {
    s.map_values(|x: &T| *x)
}

/// Every element is smaller than the one after it.
pub open spec fn strictly_increasing<T: Ord>(s: Seq<T>) -> bool {
    forall|i: int, j: int| 0 <= i < j < s.len() ==> lt(s[i], s[j])
}

/// One step of each recursive definition at a node.
proof fn lemma_unfold<T: Ord>(n: Box<Node<T>>)
    ensures
        keys_of(Some(n)) == keys_of(n.left).union(keys_of(n.right)).insert(n.data),
        is_search_tree(Some(n)) <==> {
            &&& is_search_tree(n.left)
            &&& is_search_tree(n.right)
            &&& forall|x: T| #[trigger] keys_of(n.left).contains(x) ==> lt(x, n.data)
            &&& forall|x: T| #[trigger] keys_of(n.right).contains(x) ==> lt(n.data, x)
        },
        in_order_of(Some(n)) == in_order_of(n.left).push(n.data) + in_order_of(n.right),
        pre_order_of(Some(n)) == seq![n.data] + pre_order_of(n.left) + pre_order_of(n.right),
        post_order_of(Some(n)) == (post_order_of(n.left) + post_order_of(n.right)).push(n.data),
{
}

/// The in-order traversal visits exactly the values of the subtree.
proof fn lemma_in_order_keys<T: Ord>(t: Option<Box<Node<T>>>)
    ensures
        forall|x: T| in_order_of(t).contains(x) <==> keys_of(t).contains(x),
    decreases t,
{
    if let Some(n) = t {
        lemma_unfold(n);
        lemma_in_order_keys(n.left);
        lemma_in_order_keys(n.right);
        let a = in_order_of(n.left).push(n.data);
        let b = in_order_of(n.right);
        assert forall|x: T| in_order_of(t).contains(x) <==> keys_of(t).contains(x) by {
            if in_order_of(t).contains(x) {
                let i = choose|i: int| 0 <= i < (a + b).len() && (a + b)[i] == x;
                if i < a.len() {
                    if i < a.len() - 1 {
                        assert(in_order_of(n.left).contains(x));
                    }
                } else {
                    assert(b[i - a.len()] == x);
                    assert(b.contains(x));
                }
            }
            if keys_of(t).contains(x) {
                if x == n.data {
                    assert((a + b)[a.len() - 1] == x);
                } else if keys_of(n.left).contains(x) {
                    let i = choose|i: int|
                        0 <= i < in_order_of(n.left).len() && in_order_of(n.left)[i] == x;
                    assert((a + b)[i] == x);
                } else {
                    let i = choose|i: int| 0 <= i < b.len() && b[i] == x;
                    assert((a + b)[a.len() + i] == x);
                }
            }
        }
    }
}

/// The in-order traversal of a search tree is strictly increasing.
proof fn lemma_in_order_sorted<T: Ord>(t: Option<Box<Node<T>>>)
    requires
        total_order::<T>(),
        is_search_tree(t),
    ensures
        strictly_increasing(in_order_of(t)),
    decreases t,
{
    lemma_total_order::<T>();
    if let Some(n) = t {
        lemma_unfold(n);
        lemma_in_order_sorted(n.left);
        lemma_in_order_sorted(n.right);
        lemma_in_order_keys(n.left);
        lemma_in_order_keys(n.right);
        let l = in_order_of(n.left);
        let a = l.push(n.data);
        let b = in_order_of(n.right);
        let s = a + b;
        assert forall|i: int, j: int| 0 <= i < j < s.len() implies lt(s[i], s[j]) by {
            if j < l.len() {
            } else if j == l.len() {
                assert(l.contains(s[i]));
            } else if i < l.len() {
                assert(l.contains(s[i]));
                assert(b.contains(s[j]));
            } else if i == l.len() {
                assert(b.contains(s[j]));
            } else {
                assert(s[i] == b[i - a.len()]);
                assert(s[j] == b[j - a.len()]);
            }
        }
    }
}

/// Insertion keeps the ordering and adds exactly `v`.
proof fn lemma_inserted<T: Ord>(t: Option<Box<Node<T>>>, v: T)
    requires
        total_order::<T>(),
        is_search_tree(t),
    ensures
        is_search_tree(inserted(t, v)),
        keys_of(inserted(t, v)) == keys_of(t).insert(v),
    decreases t,
{
    lemma_total_order::<T>();
    if let Some(n) = t {
        lemma_unfold(n);
        lemma_inserted(n.left, v);
        lemma_inserted(n.right, v);
        if lt(v, n.data) {
            assert(keys_of(inserted(t, v)) =~= keys_of(t).insert(v));
        } else if lt(n.data, v) {
            assert(keys_of(inserted(t, v)) =~= keys_of(t).insert(v));
        } else {
            assert(keys_of(t).insert(v) =~= keys_of(t));
        }
    } else {
        assert(keys_of(inserted(t, v)) =~= keys_of(t).insert(v));
    }
}

/// Inserting a value that is already present changes nothing.
proof fn lemma_inserted_present<T: Ord>(t: Option<Box<Node<T>>>, v: T)
    requires
        total_order::<T>(),
        is_search_tree(t),
        keys_of(t).contains(v),
    ensures
        inserted(t, v) == t,
    decreases t,
{
    lemma_total_order::<T>();
    if let Some(n) = t {
        lemma_unfold(n);
        if lt(v, n.data) {
            lemma_inserted_present(n.left, v);
        } else if lt(n.data, v) {
            lemma_inserted_present(n.right, v);
        }
    }
}

/// The leftmost value is the smallest one, and splicing it out keeps the ordering.
proof fn lemma_without_leftmost<T: Ord>(t: Option<Box<Node<T>>>)
    requires
        total_order::<T>(),
        is_search_tree(t),
        t is Some,
    ensures
        is_search_tree(without_leftmost(t)),
        keys_of(t).contains(leftmost(t)),
        keys_of(without_leftmost(t)) == keys_of(t).remove(leftmost(t)),
        forall|x: T| #[trigger] keys_of(t).contains(x) ==> (leftmost(t) == x || lt(leftmost(t), x)),
    decreases t,
{
    lemma_total_order::<T>();
    let n = t->0;
    lemma_unfold(n);
    if n.left is None {
        assert(keys_of(without_leftmost(t)) =~= keys_of(t).remove(leftmost(t)));
    } else {
        lemma_without_leftmost(n.left);
        assert(keys_of(without_leftmost(t)) =~= keys_of(t).remove(leftmost(t)));
    }
}

/// Deletion keeps the ordering and removes exactly `v`.
proof fn lemma_deleted<T: Ord>(t: Option<Box<Node<T>>>, v: T)
    requires
        total_order::<T>(),
        is_search_tree(t),
    ensures
        is_search_tree(deleted(t, v)),
        keys_of(deleted(t, v)) == keys_of(t).remove(v),
    decreases t,
{
    lemma_total_order::<T>();
    if let Some(n) = t {
        lemma_unfold(n);
        if lt(v, n.data) {
            lemma_deleted(n.left, v);
            assert(keys_of(deleted(t, v)) =~= keys_of(t).remove(v));
        } else if lt(n.data, v) {
            lemma_deleted(n.right, v);
            assert(keys_of(deleted(t, v)) =~= keys_of(t).remove(v));
        } else if n.left is None {
            assert(keys_of(deleted(t, v)) =~= keys_of(t).remove(v));
        } else if n.right is None {
            assert(keys_of(deleted(t, v)) =~= keys_of(t).remove(v));
        } else {
            lemma_without_leftmost(n.right);
            assert(keys_of(deleted(t, v)) =~= keys_of(t).remove(v));
        }
    } else {
        assert(keys_of(deleted(t, v)) =~= keys_of(t).remove(v));
    }
}

impl<T: Ord> View for BinarySearchTree<T> {
    type V = Set<T>;

    /// The set of values in the tree.
    closed spec fn view(&self) -> Set<T> {
        keys_of(self.root)
    }
}

impl<T: Ord> BinarySearchTree<T> {
    /// The ordering invariant: `T`'s order is a lawful total order and, at every
    /// node, smaller values lie to the left and larger ones to the right.
    pub closed spec fn wf(&self) -> bool {
        total_order::<T>() && is_search_tree(self.root)
    }

    /// Values in left-node-right order.
    pub closed spec fn in_order_seq(&self) -> Seq<T> {
        in_order_of(self.root)
    }

    /// Values in node-left-right order.
    pub closed spec fn pre_order_seq(&self) -> Seq<T> {
        pre_order_of(self.root)
    }

    /// Values in left-right-node order.
    pub closed spec fn post_order_seq(&self) -> Seq<T> {
        post_order_of(self.root)
    }

    /// The tree that `add(v)` leaves: `v` in a new leaf where its search ends, or
    /// the tree unchanged when `v` is already present.
    pub closed spec fn spec_add(self, v: T) -> BinarySearchTree<T> {
        BinarySearchTree { root: inserted(self.root, v) }
    }

    /// The tree that adding each value of `vs`, first to last, leaves.
    pub open spec fn spec_add_all(self, vs: Seq<T>) -> BinarySearchTree<T>
        decreases vs.len(),
    {
        if vs.len() == 0 {
            self
        } else {
            self.spec_add_all(vs.drop_last()).spec_add(vs.last())
        }
    }

    /// The tree that `delete(v)` leaves.
    pub closed spec fn spec_delete(self, v: T) -> BinarySearchTree<T> {
        BinarySearchTree { root: deleted(self.root, v) }
    }

    /// Creates a tree whose root holds `data`.
    pub fn new(data: T) -> (t: BinarySearchTree<T>)
        requires
            total_order::<T>(),
        ensures
            t.wf(),
            t@ == set![data],
            t.in_order_seq() == seq![data],
            t.pre_order_seq() == seq![data],
            t.post_order_seq() == seq![data],
    {
        let b = Node::new_mut(data);
        let t = BinarySearchTree { root: Some(b) };
        proof {
            lemma_unfold(b);
            assert(t@ =~= set![data]);
            assert(t.in_order_seq() =~= seq![data]);
            assert(t.pre_order_seq() =~= seq![data]);
            assert(t.post_order_seq() =~= seq![data]);
        }
        t
    }

    /// Adds `data` below `node`, or nothing when it is already there.
    fn add_node(node: &mut Node<T>, data: T)
        requires
            total_order::<T>(),
        ensures
            Some(Box::new(*final(node))) == inserted(Some(Box::new(*old(node))), data),
        decreases *old(node),
    {
        proof {
            lemma_total_order::<T>();
        }
        match data.cmp(&node.data) {
            Ordering::Greater => {
                if node.right.is_none() {
                    node.add_right(data);
                    assert(inserted(old(node).right, data) == leaf(data));
                } else {
                    let mut child = node.right.take().unwrap();
                    let ghost before = child;
                    Self::add_node(&mut *child, data);
                    node.right = Some(child);
                    assert(old(node).right == Some(before));
                }
            },
            Ordering::Less => {
                if node.left.is_none() {
                    node.add_left(data);
                    assert(inserted(old(node).left, data) == leaf(data));
                } else {
                    let mut child = node.left.take().unwrap();
                    let ghost before = child;
                    Self::add_node(&mut *child, data);
                    node.left = Some(child);
                    assert(old(node).left == Some(before));
                }
            },
            Ordering::Equal => {},
        }
    }

    /// Adds `data` to the tree; an empty tree gets it as its root. Adding a value
    /// that is already present changes nothing.
    pub fn add(&mut self, data: T)
        requires
            old(self).wf(),
        ensures
            *final(self) == old(self).spec_add(data),
            final(self).wf(),
            final(self)@ == old(self)@.insert(data),
    {
        proof {
            lemma_inserted(self.root, data);
        }
        match self.root.take() {
            None => {
                self.root = Some(Node::new_mut(data));
            },
            Some(mut node) => {
                Self::add_node(&mut *node, data);
                self.root = Some(node);
            },
        }
    }

    fn get_node<'a>(data: &T, node: &'a Option<Box<Node<T>>>) -> (r: Option<&'a T>)
        requires
            total_order::<T>(),
            is_search_tree(*node),
        ensures
            r is Some <==> keys_of(*node).contains(*data),
            r matches Some(x) ==> *x == *data,
        decreases *node,
    {
        match node {
            None => None,
            Some(n) => {
                proof {
                    lemma_unfold(*n);
                    lemma_total_order::<T>();
                }
                match data.cmp(&n.data) {
                    Ordering::Greater => Self::get_node(data, &n.right),
                    Ordering::Less => Self::get_node(data, &n.left),
                    Ordering::Equal => Some(&n.data),
                }
            },
        }
    }

    /// Looks `data` up: the stored value equal to it, or `None` when there is none.
    pub fn get(&self, data: &T) -> (r: Option<&T>)
        requires
            self.wf(),
        ensures
            r is Some <==> self@.contains(*data),
            r matches Some(x) ==> *x == *data,
    {
        Self::get_node(data, &self.root)
    }

    /// Splices the leftmost node out of a non-empty subtree, replacing it by its
    /// right subtree, and returns its value.
    fn take_leftmost(slot: &mut Option<Box<Node<T>>>) -> (v: T)
        requires
            old(slot).is_some(),
        ensures
            v == leftmost(*old(slot)),
            *final(slot) == without_leftmost(*old(slot)),
        decreases *old(slot),
    {
        let mut node = slot.take().unwrap();
        if node.left.is_none() {
            *slot = node.right;
            node.data
        } else {
            let v = Self::take_leftmost(&mut node.left);
            *slot = Some(node);
            v
        }
    }

    /// What replaces a node that holds the deleted value. Without a left child
    /// the right subtree moves up, and without a right child the left one does.
    /// With two children the node stays and takes its in-order successor's value.
    fn delete_node_helper(mut node: Box<Node<T>>) -> (r: Option<Box<Node<T>>>)
        requires
            total_order::<T>(),
        ensures
            r == deleted(Some(node), node.data),
    {
        proof {
            lemma_total_order::<T>();
        }
        if node.left.is_none() {
            node.right
        } else if node.right.is_none() {
            node.left
        } else {
            let successor = Self::take_leftmost(&mut node.right);
            node.data = successor;
            Some(node)
        }
    }

    fn delete_node(data: &T, slot: &mut Option<Box<Node<T>>>)
        requires
            total_order::<T>(),
        ensures
            *final(slot) == deleted(*old(slot), *data),
        decreases *old(slot),
    {
        match slot.take() {
            None => {},
            Some(mut node) => {
                proof {
                    lemma_total_order::<T>();
                }
                match data.cmp(&node.data) {
                    Ordering::Greater => {
                        Self::delete_node(data, &mut node.right);
                        *slot = Some(node);
                    },
                    Ordering::Less => {
                        Self::delete_node(data, &mut node.left);
                        *slot = Some(node);
                    },
                    Ordering::Equal => {
                        *slot = Self::delete_node_helper(node);
                    },
                }
            },
        }
    }

    /// Removes `data` from the tree; nothing happens when it is absent.
    pub fn delete(&mut self, data: &T)
        requires
            old(self).wf(),
        ensures
            *final(self) == old(self).spec_delete(*data),
            final(self).wf(),
            final(self)@ == old(self)@.remove(*data),
    {
        proof {
            lemma_deleted(self.root, *data);
        }
        Self::delete_node(data, &mut self.root);
    }

    fn in_order_node<'a>(node: &'a Option<Box<Node<T>>>, out: &mut Vec<&'a T>)
        ensures
            derefs(final(out)@) == derefs(old(out)@) + in_order_of(*node),
        decreases *node,
    {
        if let Some(n) = node {
            Self::in_order_node(&n.left, out);
            let ghost before = out@;
            out.push(&n.data);
            assert(derefs(out@) =~= derefs(before).push(n.data));
            Self::in_order_node(&n.right, out);
            proof {
                lemma_unfold(*n);
            }
        }
        assert(derefs(out@) =~= derefs(old(out)@) + in_order_of(*node));
    }

    fn pre_order_node<'a>(node: &'a Option<Box<Node<T>>>, out: &mut Vec<&'a T>)
        ensures
            derefs(final(out)@) == derefs(old(out)@) + pre_order_of(*node),
        decreases *node,
    {
        if let Some(n) = node {
            let ghost before = out@;
            out.push(&n.data);
            assert(derefs(out@) =~= derefs(before).push(n.data));
            Self::pre_order_node(&n.left, out);
            Self::pre_order_node(&n.right, out);
            proof {
                lemma_unfold(*n);
            }
        }
        assert(derefs(out@) =~= derefs(old(out)@) + pre_order_of(*node));
    }

    fn post_order_node<'a>(node: &'a Option<Box<Node<T>>>, out: &mut Vec<&'a T>)
        ensures
            derefs(final(out)@) == derefs(old(out)@) + post_order_of(*node),
        decreases *node,
    {
        if let Some(n) = node {
            Self::post_order_node(&n.left, out);
            Self::post_order_node(&n.right, out);
            let ghost before = out@;
            out.push(&n.data);
            assert(derefs(out@) =~= derefs(before).push(n.data));
            proof {
                lemma_unfold(*n);
            }
        }
        assert(derefs(out@) =~= derefs(old(out)@) + post_order_of(*node));
    }

    /// The values in left-node-right order, which for this tree is increasing.
    pub fn in_order(&self) -> (r: Vec<&T>)
        requires
            self.wf(),
        ensures
            derefs(r@) == self.in_order_seq(),
            strictly_increasing(derefs(r@)),
            derefs(r@).to_set() == self@,
    {
        let mut out: Vec<&T> = Vec::new();
        Self::in_order_node(&self.root, &mut out);
        proof {
            assert(derefs(out@) =~= self.in_order_seq());
            lemma_in_order_sorted(self.root);
            lemma_in_order_keys(self.root);
            assert(derefs(out@).to_set() =~= self@);
        }
        out
    }

    /// The values in node-left-right order.
    pub fn pre_order(&self) -> (r: Vec<&T>)
        ensures
            derefs(r@) == self.pre_order_seq(),
    {
        let mut out: Vec<&T> = Vec::new();
        Self::pre_order_node(&self.root, &mut out);
        assert(derefs(out@) =~= self.pre_order_seq());
        out
    }

    /// The values in left-right-node order.
    pub fn post_order(&self) -> (r: Vec<&T>)
        ensures
            derefs(r@) == self.post_order_seq(),
    {
        let mut out: Vec<&T> = Vec::new();
        Self::post_order_node(&self.root, &mut out);
        assert(derefs(out@) =~= self.post_order_seq());
        out
    }
}

/// Whatever values are added, in any order, to a well-formed tree, it stays
/// well-formed and its in-order traversal is strictly increasing.
pub proof fn lemma_adds_keep_in_order_sorted<T: Ord>(t: BinarySearchTree<T>, vs: Seq<T>)
    requires
        t.wf(),
    ensures
        t.spec_add_all(vs).wf(),
        strictly_increasing(t.spec_add_all(vs).in_order_seq()),
    decreases vs.len(),
{
    if vs.len() > 0 {
        lemma_adds_keep_in_order_sorted(t, vs.drop_last());
        lemma_inserted(t.spec_add_all(vs.drop_last()).root, vs.last());
    }
    lemma_in_order_sorted(t.spec_add_all(vs).root);
}

/// Adding a value that is already present leaves the tree, and so the length
/// of its in-order traversal, unchanged.
pub proof fn lemma_add_present_is_no_op<T: Ord>(t: BinarySearchTree<T>, v: T)
    requires
        t.wf(),
        t@.contains(v),
    ensures
        t.spec_add(v) == t,
        t.spec_add(v).in_order_seq().len() == t.in_order_seq().len(),
{
    lemma_inserted_present(t.root, v);
}

/// After a sequence of additions, a lookup finds exactly the values that were
/// there before and the values added.
pub proof fn lemma_lookup_after_adds<T: Ord>(t: BinarySearchTree<T>, vs: Seq<T>, w: T)
    requires
        t.wf(),
    ensures
        t.spec_add_all(vs).wf(),
        t.spec_add_all(vs)@.contains(w) <==> (t@.contains(w) || vs.contains(w)),
    decreases vs.len(),
{
    if vs.len() > 0 {
        let prefix = vs.drop_last();
        lemma_lookup_after_adds(t, prefix, w);
        lemma_inserted(t.spec_add_all(prefix).root, vs.last());
        if prefix.contains(w) {
            let i = choose|i: int| 0 <= i < prefix.len() && prefix[i] == w;
            assert(vs[i] == w);
        }
        if vs.contains(w) && w != vs.last() {
            let i = choose|i: int| 0 <= i < vs.len() && vs[i] == w;
            assert(prefix[i] == w);
        }
    }
}

/// After deleting `v`, a lookup of `v` finds nothing, and every other value that
/// was present is still found.
pub proof fn lemma_lookup_after_delete<T: Ord>(t: BinarySearchTree<T>, v: T, w: T)
    requires
        t.wf(),
    ensures
        t.spec_delete(v).wf(),
        !t.spec_delete(v)@.contains(v),
        w != v ==> (t.spec_delete(v)@.contains(w) <==> t@.contains(w)),
{
    lemma_deleted(t.root, v);
}

impl<T> Node<T> {
    fn new(data: T) -> (n: Node<T>)
        ensures
            n.data == data,
            n.left is None,
            n.right is None,
    {
        Node { data, left: None, right: None }
    }

    fn new_mut(data: T) -> (b: Box<Node<T>>)
        ensures
            Some(b) == leaf(data),
    {
        Box::new(Self::new(data))
    }

    /// Hangs a new leaf holding `data` in the empty left slot; an occupied slot
    /// is left as it is.
    fn add_left(&mut self, data: T)
        ensures
            final(self).data == old(self).data,
            final(self).right == old(self).right,
            final(self).left == if old(self).left is None { leaf(data) } else { old(self).left },
    {
        if self.left.is_some() {
            return;
        }
        self.left = Some(Self::new_mut(data));
    }

    /// Hangs a new leaf holding `data` in the empty right slot; an occupied slot
    /// is left as it is.
    fn add_right(&mut self, data: T)
        ensures
            final(self).data == old(self).data,
            final(self).left == old(self).left,
            final(self).right == if old(self).right is None { leaf(data) } else { old(self).right },
    {
        if self.right.is_some() {
            return;
        }
        self.right = Some(Self::new_mut(data));
    }
}

} // verus!
