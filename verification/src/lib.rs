//! An unbalanced binary search tree over `i32` keys.
//!
//! The tree supports insertion (a duplicate key is silently ignored),
//! membership search, ascending in-order traversal, and height computation.
//! Every operation is specified against three abstractions of the tree: the
//! set of keys it holds, the in-order sequence of those keys, and its height.
//! No balancing is performed: the shape of the tree, and with it the height,
//! is determined entirely by the order of insertion.

use vstd::prelude::*;

verus! {

/// A single tree element: one key and the two optional subtrees it owns.
pub struct Node {
    value: i32,
    left: Option<Box<Node>>,
    right: Option<Box<Node>>,
}

/// An unbalanced binary search tree: an optional root node.
pub struct BinarySearchTree {
    root: Option<Box<Node>>,
}

impl Node {
    /// The set of keys stored in an optional subtree.
    pub closed spec fn sub_keys(sub: Option<Box<Node>>) -> Set<i32>
        decreases sub,
    {
        match sub {
            None => Set::empty(),
            Some(n) => n.keys(),
        }
    }

    /// The set of keys stored in the tree rooted at this node.
    pub closed spec fn keys(self) -> Set<i32>
        decreases self,
    {
        Node::sub_keys(self.left).insert(self.value).union(Node::sub_keys(self.right))
    }

    /// The in-order key sequence of an optional subtree.
    pub closed spec fn sub_inorder(sub: Option<Box<Node>>) -> Seq<i32>
        decreases sub,
    {
        match sub {
            None => Seq::empty(),
            Some(n) => n.inorder(),
        }
    }

    /// The in-order key sequence of the tree rooted at this node:
    /// left subtree first, then this node's key, then the right subtree.
    pub closed spec fn inorder(self) -> Seq<i32>
        decreases self,
    {
        Node::sub_inorder(self.left) + seq![self.value] + Node::sub_inorder(self.right)
    }

    /// The height of an optional subtree: 0 when absent.
    pub closed spec fn sub_height(sub: Option<Box<Node>>) -> nat
        decreases sub,
    {
        match sub {
            None => 0,
            Some(n) => n.spec_height(),
        }
    }

    /// The height of the tree rooted at this node: the number of nodes on
    /// the longest path from this node down to a leaf.
    pub closed spec fn spec_height(self) -> nat
        decreases self,
    {
        let lh = Node::sub_height(self.left);
        let rh = Node::sub_height(self.right);
        (if lh >= rh { lh } else { rh }) + 1
    }

    /// The ordering invariant of an optional subtree.
    pub closed spec fn sub_well_formed(sub: Option<Box<Node>>) -> bool
        decreases sub,
    {
        match sub {
            None => true,
            Some(n) => n.well_formed(),
        }
    }

    /// The ordering invariant: every key in the left subtree is strictly
    /// below this node's key, every key in the right subtree strictly above,
    /// and both subtrees satisfy the same condition recursively.
    pub closed spec fn well_formed(self) -> bool
        decreases self,
    {
        &&& forall|k: i32| Node::sub_keys(self.left).contains(k) ==> k < self.value
        &&& forall|k: i32| Node::sub_keys(self.right).contains(k) ==> k > self.value
        &&& Node::sub_well_formed(self.left)
        &&& Node::sub_well_formed(self.right)
    }

    /// Whether an optional subtree is a chain of right children only.
    pub closed spec fn sub_right_chain(sub: Option<Box<Node>>) -> bool
        decreases sub,
    {
        match sub {
            None => true,
            Some(n) => n.right_chain(),
        }
    }

    /// Whether the tree rooted at this node is a chain of right children
    /// only, the shape that inserting keys in increasing order produces.
    pub closed spec fn right_chain(self) -> bool
        decreases self,
    {
        self.left is None && Node::sub_right_chain(self.right)
    }

    /// Whether an optional subtree is a chain of left children only.
    pub closed spec fn sub_left_chain(sub: Option<Box<Node>>) -> bool
        decreases sub,
    {
        match sub {
            None => true,
            Some(n) => n.left_chain(),
        }
    }

    /// Whether the tree rooted at this node is a chain of left children
    /// only, the shape that inserting keys in decreasing order produces.
    pub closed spec fn left_chain(self) -> bool
        decreases self,
    {
        self.right is None && Node::sub_left_chain(self.left)
    }

    /// The node an insertion creates in an empty slot: `value`, no children.
    pub closed spec fn leaf(value: i32) -> Node {
        Node { value, left: None, right: None }
    }

    /// The exact subtree that inserting `value` into an optional subtree
    /// yields: a fresh leaf fills an empty slot, and an occupied slot keeps
    /// its node, whose subtrees change only as `spec_insert` says.
    pub closed spec fn sub_insert(sub: Option<Box<Node>>, value: i32) -> Option<Box<Node>>
        decreases sub,
    {
        match sub {
            None => Some(Box::new(Node::leaf(value))),
            Some(n) => Some(Box::new(n.spec_insert(value))),
        }
    }

    /// The exact tree that inserting `value` below this node yields: this
    /// node keeps its key, the subtree away from the search path is left
    /// untouched, the one on the search path is inserted into recursively,
    /// and an equal key changes nothing at all.
    pub closed spec fn spec_insert(self, value: i32) -> Node
        decreases self,
    {
        if value < self.value {
            Node { value: self.value, left: Node::sub_insert(self.left, value), right: self.right }
        } else if value > self.value {
            Node { value: self.value, left: self.left, right: Node::sub_insert(self.right, value) }
        } else {
            self
        }
    }
}

impl BinarySearchTree {
    /// The set of keys held by the tree.
    pub closed spec fn keys(self) -> Set<i32> {
        Node::sub_keys(self.root)
    }

    /// The keys of the tree in ascending in-order sequence.
    pub closed spec fn inorder(self) -> Seq<i32> {
        Node::sub_inorder(self.root)
    }

    /// The height of the tree: the number of nodes on the longest path from
    /// the root to a leaf, 0 for the empty tree.
    pub closed spec fn spec_height(self) -> nat {
        Node::sub_height(self.root)
    }

    /// The ordering invariant, which every operation preserves.
    pub closed spec fn well_formed(self) -> bool {
        Node::sub_well_formed(self.root)
    }

    /// Whether the tree is a chain of right children only, the shape that
    /// inserting keys in strictly increasing order produces.
    pub closed spec fn is_right_chain(self) -> bool {
        Node::sub_right_chain(self.root)
    }

    /// Whether the tree is a chain of left children only, the shape that
    /// inserting keys in strictly decreasing order produces.
    pub closed spec fn is_left_chain(self) -> bool {
        Node::sub_left_chain(self.root)
    }

    /// The exact tree that inserting `value` yields: the tree's shape is
    /// determined entirely by the order of insertion.
    pub closed spec fn spec_insert(self, value: i32) -> BinarySearchTree {
        BinarySearchTree { root: Node::sub_insert(self.root, value) }
    }
}

impl Node {
    /// A fresh leaf holding `value` and no children.
    pub fn new(value: i32) -> (n: Node)
        ensures
            n == Node::leaf(value),
            n.well_formed(),
            n.keys() == set![value],
            n.inorder() == seq![value],
            n.spec_height() == 1,
            n.right_chain(),
            n.left_chain(),
    {
        let n = Node { value, left: None, right: None };
        proof {
            assert(n.keys() =~= set![value]);
            assert(n.inorder() =~= seq![value]);
        }
        n
    }

    /// Inserts `value` into an optional subtree: a leaf fills an empty slot,
    /// and a subtree already holding the key is left exactly as it was.
    fn insert_sub(sub: &mut Option<Box<Node>>, value: i32)
        requires
            Node::sub_well_formed(*old(sub)),
        ensures
            *final(sub) == Node::sub_insert(*old(sub), value),
            Node::sub_well_formed(*final(sub)),
            Node::sub_keys(*final(sub)) == Node::sub_keys(*old(sub)).insert(value),
            Node::sub_keys(*old(sub)).contains(value) ==> *final(sub) == *old(sub),
            Node::sub_right_chain(*old(sub)) && (forall|k: i32|
                Node::sub_keys(*old(sub)).contains(k) ==> k < value)
                ==> Node::sub_right_chain(*final(sub)),
            Node::sub_left_chain(*old(sub)) && (forall|k: i32|
                Node::sub_keys(*old(sub)).contains(k) ==> k > value)
                ==> Node::sub_left_chain(*final(sub)),
        decreases *old(sub),
    {
        match sub.take() {
            None => {
                *sub = Some(Box::new(Node::new(value)));
                proof {
                    assert(Node::sub_keys(*sub) =~= Node::sub_keys(*old(sub)).insert(value));
                }
            }
            Some(mut boxed_node) => {
                proof {
                    assert(Node::sub_keys(*old(sub)) == boxed_node.keys());
                    assert(Node::sub_right_chain(*old(sub)) == boxed_node.right_chain());
                    assert(Node::sub_left_chain(*old(sub)) == boxed_node.left_chain());
                }
                (&mut *boxed_node).insert(value);
                *sub = Some(boxed_node);
            }
        }
    }

    /// Inserts `value` into the tree rooted at this node, descending left
    /// below larger keys and right below smaller ones; an equal key already
    /// in place makes the call a no-op.
    pub fn insert(&mut self, value: i32)
        requires
            old(self).well_formed(),
        ensures
            *final(self) == old(self).spec_insert(value),
            final(self).well_formed(),
            final(self).keys() == old(self).keys().insert(value),
            old(self).keys().contains(value) ==> *final(self) == *old(self),
            old(self).right_chain() && (forall|k: i32|
                old(self).keys().contains(k) ==> k < value)
                ==> final(self).right_chain(),
            old(self).left_chain() && (forall|k: i32|
                old(self).keys().contains(k) ==> k > value)
                ==> final(self).left_chain(),
        decreases *old(self),
    {
        proof {
            assert(old(self).keys().contains(old(self).value));
        }
        if value < self.value {
            proof {
                assert(!Node::sub_keys(self.right).contains(value));
            }
            Node::insert_sub(&mut self.left, value);
            proof {
                assert(self.keys() =~= old(self).keys().insert(value));
                if forall|k: i32| old(self).keys().contains(k) ==> k > value {
                    assert forall|k: i32| Node::sub_keys(old(self).left).contains(k)
                        implies k > value by {
                        assert(old(self).keys().contains(k));
                    }
                }
            }
        } else if value > self.value {
            proof {
                assert(!Node::sub_keys(self.left).contains(value));
            }
            Node::insert_sub(&mut self.right, value);
            proof {
                assert(self.keys() =~= old(self).keys().insert(value));
                if forall|k: i32| old(self).keys().contains(k) ==> k < value {
                    assert forall|k: i32| Node::sub_keys(old(self).right).contains(k)
                        implies k < value by {
                        assert(old(self).keys().contains(k));
                    }
                }
            }
        } else {
            proof {
                assert(self.keys() =~= old(self).keys().insert(value));
            }
        }
    }

    /// Whether `value` occurs in the tree rooted at this node, found by
    /// descending left below larger keys and right below smaller ones.
    pub fn search(&self, value: i32) -> (found: bool)
        requires
            self.well_formed(),
        ensures
            found == self.keys().contains(value),
        decreases *self,
    {
        if self.value == value {
            true
        } else if value < self.value {
            proof {
                assert(!Node::sub_keys(self.right).contains(value));
            }
            match &self.left {
                Some(left_node) => left_node.search(value),
                None => false,
            }
        } else {
            proof {
                assert(!Node::sub_keys(self.left).contains(value));
            }
            match &self.right {
                Some(right_node) => right_node.search(value),
                None => false,
            }
        }
    }
}

impl Node {
    /// Appends to `result` the keys of the tree rooted at this node in
    /// in-order sequence: left subtree, this node's key, right subtree.
    pub fn inorder_traversal(&self, result: &mut Vec<i32>)
        ensures
            final(result)@ == old(result)@ + self.inorder(),
        decreases *self,
    {
        if let Some(left_node) = &self.left {
            left_node.inorder_traversal(result);
        }
        result.push(self.value);
        if let Some(right_node) = &self.right {
            right_node.inorder_traversal(result);
        }
        proof {
            assert(result@ =~= old(result)@ + self.inorder());
        }
    }

    /// The height of the tree rooted at this node: the number of nodes on
    /// the longest path from this node down to a leaf, at least 1.
    pub fn height(&self) -> (h: i32)
        requires
            self.spec_height() <= i32::MAX as nat,
        ensures
            h as int == self.spec_height() as int,
        decreases *self,
    {
        let left_height: i32 = match &self.left {
            Some(left_node) => left_node.height(),
            None => 0,
        };
        let right_height: i32 = match &self.right {
            Some(right_node) => right_node.height(),
            None => 0,
        };
        if left_height >= right_height {
            1 + left_height
        } else {
            1 + right_height
        }
    }
}

impl BinarySearchTree {
    /// An empty tree: no keys, empty traversal, height 0.
    pub fn new() -> (t: BinarySearchTree)
        ensures
            t.well_formed(),
            t.keys() == Set::<i32>::empty(),
            t.inorder() == Seq::<i32>::empty(),
            t.spec_height() == 0,
            t.is_right_chain(),
            t.is_left_chain(),
    {
        BinarySearchTree { root: None }
    }

    /// Inserts `value`, keeping the ordering invariant; a key already in the
    /// tree is silently discarded, leaving the tree exactly as it was.
    pub fn insert(&mut self, value: i32)
        requires
            old(self).well_formed(),
        ensures
            *final(self) == old(self).spec_insert(value),
            final(self).well_formed(),
            final(self).keys() == old(self).keys().insert(value),
            old(self).keys().contains(value) ==> *final(self) == *old(self),
            old(self).keys().contains(value) ==> final(self).inorder() == old(self).inorder()
                && final(self).spec_height() == old(self).spec_height(),
            old(self).is_right_chain() && (forall|k: i32|
                old(self).keys().contains(k) ==> k < value)
                ==> final(self).is_right_chain(),
            old(self).is_left_chain() && (forall|k: i32|
                old(self).keys().contains(k) ==> k > value)
                ==> final(self).is_left_chain(),
    {
        Node::insert_sub(&mut self.root, value);
        proof {
            if forall|k: i32| old(self).keys().contains(k) ==> k < value {
                assert forall|k: i32| Node::sub_keys(old(self).root).contains(k)
                    implies k < value by {
                    assert(old(self).keys().contains(k));
                }
            }
            if forall|k: i32| old(self).keys().contains(k) ==> k > value {
                assert forall|k: i32| Node::sub_keys(old(self).root).contains(k)
                    implies k > value by {
                    assert(old(self).keys().contains(k));
                }
            }
        }
    }

    /// Whether `value` occurs in the tree.
    pub fn search(&self, value: i32) -> (found: bool)
        requires
            self.well_formed(),
        ensures
            found == self.keys().contains(value),
    {
        match &self.root {
            Some(root_node) => root_node.search(value),
            None => false,
        }
    }

    /// The tree's keys in ascending order, as a fresh vector.
    pub fn inorder_traversal(&self) -> (result: Vec<i32>)
        ensures
            result@ == self.inorder(),
    {
        let mut result = Vec::new();
        if let Some(root_node) = &self.root {
            root_node.inorder_traversal(&mut result);
        }
        proof {
            assert(result@ =~= self.inorder());
        }
        result
    }

    /// The height of the tree: 0 when empty, otherwise the number of nodes
    /// on the longest path from the root to a leaf.
    pub fn height(&self) -> (h: i32)
        requires
            self.spec_height() <= i32::MAX as nat,
        ensures
            h as int == self.spec_height() as int,
    {
        match &self.root {
            Some(root_node) => root_node.height(),
            None => 0,
        }
    }
}

/// A sequence whose entries grow strictly from left to right; such a
/// sequence lists each of its entries exactly once.
pub open spec fn strictly_increasing(s: Seq<i32>) -> bool {
    forall|i: int, j: int| 0 <= i < j < s.len() ==> s[i] < s[j]
}

/// The in-order sequence of a subtree lists exactly the keys of that
/// subtree, and the key set is finite.
proof fn lemma_sub_inorder_keys(sub: Option<Box<Node>>)
    ensures
        Node::sub_keys(sub) == Node::sub_inorder(sub).to_set(),
        Node::sub_keys(sub).finite(),
    decreases sub,
{
    broadcast use vstd::seq_lib::seq_to_set_is_finite;

    match sub {
        None => {
            assert(Node::sub_keys(sub) =~= Node::sub_inorder(sub).to_set());
        }
        Some(n) => {
            lemma_sub_inorder_keys(n.left);
            lemma_sub_inorder_keys(n.right);
            let li = Node::sub_inorder(n.left);
            let ri = Node::sub_inorder(n.right);
            let s = n.inorder();
            assert forall|k: i32| s.to_set().contains(k) implies n.keys().contains(k) by {
                let i: int = choose|i: int| 0 <= i < s.len() && s[i] == k;
                if i < li.len() {
                    assert(li[i] == k);
                    assert(li.contains(k));
                } else if i > li.len() {
                    assert(ri[i - li.len() - 1] == k);
                    assert(ri.contains(k));
                }
            }
            assert forall|k: i32| n.keys().contains(k) implies s.to_set().contains(k) by {
                if Node::sub_keys(n.left).contains(k) {
                    let i: int = choose|i: int| 0 <= i < li.len() && li[i] == k;
                    assert(s[i] == k);
                } else if k == n.value {
                    assert(s[li.len() as int] == k);
                } else {
                    let i: int = choose|i: int| 0 <= i < ri.len() && ri[i] == k;
                    assert(s[li.len() + 1 + i] == k);
                }
                assert(s.contains(k));
            }
            assert(n.keys() =~= s.to_set());
        }
    }
}

/// Under the ordering invariant, the in-order sequence of a subtree is
/// strictly increasing.
proof fn lemma_sub_inorder_sorted(sub: Option<Box<Node>>)
    requires
        Node::sub_well_formed(sub),
    ensures
        strictly_increasing(Node::sub_inorder(sub)),
    decreases sub,
{
    match sub {
        None => {}
        Some(n) => {
            lemma_sub_inorder_sorted(n.left);
            lemma_sub_inorder_sorted(n.right);
            lemma_sub_inorder_keys(n.left);
            lemma_sub_inorder_keys(n.right);
            let li = Node::sub_inorder(n.left);
            let ri = Node::sub_inorder(n.right);
            let s = n.inorder();
            let m = li.len() as int;
            assert forall|i: int, j: int| 0 <= i < j < s.len() implies s[i] < s[j] by {
                if i < m {
                    assert(li.contains(li[i]));
                    assert(Node::sub_keys(n.left).contains(s[i]));
                }
                if i > m {
                    assert(ri.contains(ri[i - m - 1]));
                    assert(Node::sub_keys(n.right).contains(s[i]));
                }
                if j < m {
                    assert(li.contains(li[j]));
                    assert(Node::sub_keys(n.left).contains(s[j]));
                }
                if j > m {
                    assert(ri.contains(ri[j - m - 1]));
                    assert(Node::sub_keys(n.right).contains(s[j]));
                }
            }
        }
    }
}

/// The height of a subtree never exceeds the length of its in-order
/// sequence, and is zero exactly for the empty subtree.
proof fn lemma_sub_height_bounds(sub: Option<Box<Node>>)
    ensures
        Node::sub_height(sub) <= Node::sub_inorder(sub).len(),
        sub is Some ==> Node::sub_height(sub) >= 1,
        sub is Some ==> Node::sub_inorder(sub).len() >= 1,
        sub is None ==> Node::sub_height(sub) == 0,
        sub is None ==> Node::sub_inorder(sub).len() == 0,
    decreases sub,
{
    match sub {
        None => {}
        Some(n) => {
            lemma_sub_height_bounds(n.left);
            lemma_sub_height_bounds(n.right);
        }
    }
}

/// A subtree that is a chain of right children has height equal to the
/// length of its in-order sequence.
proof fn lemma_sub_right_chain_height(sub: Option<Box<Node>>)
    requires
        Node::sub_right_chain(sub),
    ensures
        Node::sub_height(sub) == Node::sub_inorder(sub).len(),
    decreases sub,
{
    match sub {
        None => {}
        Some(n) => {
            lemma_sub_right_chain_height(n.right);
            assert(n.left is None);
            assert(n.inorder().len() == 1 + Node::sub_inorder(n.right).len());
            assert(n.spec_height() == 1 + Node::sub_height(n.right));
        }
    }
}

/// A subtree that is a chain of left children has height equal to the
/// length of its in-order sequence.
proof fn lemma_sub_left_chain_height(sub: Option<Box<Node>>)
    requires
        Node::sub_left_chain(sub),
    ensures
        Node::sub_height(sub) == Node::sub_inorder(sub).len(),
    decreases sub,
{
    match sub {
        None => {}
        Some(n) => {
            lemma_sub_left_chain_height(n.left);
            assert(n.right is None);
            assert(n.inorder().len() == 1 + Node::sub_inorder(n.left).len());
            assert(n.spec_height() == 1 + Node::sub_height(n.left));
        }
    }
}

/// Two strictly increasing sequences over the same set of entries are the
/// same sequence: a set of keys has exactly one ascending listing, so a
/// traversal that is strictly increasing and lists exactly the tree's keys
/// is the ascending sequence of the distinct inserted keys.
pub proof fn lemma_sorted_seq_unique(s1: Seq<i32>, s2: Seq<i32>)
    requires
        strictly_increasing(s1),
        strictly_increasing(s2),
        s1.to_set() == s2.to_set(),
    ensures
        s1 == s2,
    decreases s1.len(),
{
    if s1.len() == 0 {
        if s2.len() > 0 {
            assert(s2.contains(s2[0]));
            assert(s1.to_set().contains(s2[0]));
            assert(false);
        }
        assert(s1 =~= s2);
    } else {
        if s2.len() == 0 {
            assert(s1.contains(s1[0]));
            assert(s2.to_set().contains(s1[0]));
            assert(false);
        }
        assert(s1.contains(s1[0]));
        assert(s2.to_set().contains(s1[0]));
        let j1: int = choose|j: int| 0 <= j < s2.len() && s2[j] == s1[0];
        assert(s2[0] <= s2[j1]);
        assert(s2.contains(s2[0]));
        assert(s1.to_set().contains(s2[0]));
        let j2: int = choose|j: int| 0 <= j < s1.len() && s1[j] == s2[0];
        assert(s1[0] <= s1[j2]);
        assert(s1[0] == s2[0]);
        let t1 = s1.drop_first();
        let t2 = s2.drop_first();
        assert forall|i: int, j: int| 0 <= i < j < t1.len() implies t1[i] < t1[j] by {
            assert(s1[i + 1] < s1[j + 1]);
        }
        assert forall|i: int, j: int| 0 <= i < j < t2.len() implies t2[i] < t2[j] by {
            assert(s2[i + 1] < s2[j + 1]);
        }
        assert forall|k: i32| t1.to_set().contains(k) implies t2.to_set().contains(k) by {
            let i: int = choose|i: int| 0 <= i < t1.len() && t1[i] == k;
            assert(s1[i + 1] == k);
            assert(s1.contains(k));
            assert(s1[0] < k);
            assert(s2.to_set().contains(k));
            let j: int = choose|j: int| 0 <= j < s2.len() && s2[j] == k;
            assert(j != 0);
            assert(t2[j - 1] == k);
            assert(t2.contains(k));
        }
        assert forall|k: i32| t2.to_set().contains(k) implies t1.to_set().contains(k) by {
            let i: int = choose|i: int| 0 <= i < t2.len() && t2[i] == k;
            assert(s2[i + 1] == k);
            assert(s2.contains(k));
            assert(s2[0] < k);
            assert(s1.to_set().contains(k));
            let j: int = choose|j: int| 0 <= j < s1.len() && s1[j] == k;
            assert(j != 0);
            assert(t1[j - 1] == k);
            assert(t1.contains(k));
        }
        assert(t1.to_set() =~= t2.to_set());
        lemma_sorted_seq_unique(t1, t2);
        assert(s1.len() == s2.len());
        assert forall|i: int| 0 <= i < s1.len() implies s1[i] == s2[i] by {
            if i > 0 {
                assert(s1[i] == t1[i - 1]);
                assert(s2[i] == t2[i - 1]);
            }
        }
        assert(s1 =~= s2);
    }
}

/// The in-order traversal of a well-formed tree lists exactly the tree's
/// keys, each exactly once, in strictly ascending order; its length is
/// therefore the number of distinct keys in the tree.
pub proof fn lemma_traversal_sorted(t: BinarySearchTree)
    requires
        t.well_formed(),
    ensures
        strictly_increasing(t.inorder()),
        t.inorder().to_set() == t.keys(),
        t.inorder().no_duplicates(),
        t.keys().finite(),
        t.inorder().len() == t.keys().len(),
{
    lemma_sub_inorder_sorted(t.root);
    lemma_sub_inorder_keys(t.root);
    let s = t.inorder();
    assert forall|i: int, j: int|
        0 <= i < s.len() && 0 <= j < s.len() && i != j implies s[i] != s[j] by {
        if i < j {
            assert(s[i] < s[j]);
        } else {
            assert(s[j] < s[i]);
        }
    }
    s.unique_seq_to_set();
}

/// For a well-formed tree with n distinct keys, the height is 0 exactly
/// when n is 0, and otherwise lies between 1 and n.
pub proof fn lemma_height_bounds(t: BinarySearchTree)
    requires
        t.well_formed(),
    ensures
        t.keys().finite(),
        (t.keys().len() == 0) <==> (t.spec_height() == 0),
        t.keys().len() > 0 ==> 1 <= t.spec_height() <= t.keys().len(),
{
    lemma_traversal_sorted(t);
    lemma_sub_height_bounds(t.root);
}

/// A well-formed tree that is a single chain, the shape that inserting
/// keys in strictly increasing or strictly decreasing order produces, has
/// height equal to its number of keys.
pub proof fn lemma_chain_height(t: BinarySearchTree)
    requires
        t.well_formed(),
        t.is_right_chain() || t.is_left_chain(),
    ensures
        t.spec_height() == t.keys().len(),
{
    lemma_traversal_sorted(t);
    if t.is_right_chain() {
        lemma_sub_right_chain_height(t.root);
    } else {
        lemma_sub_left_chain_height(t.root);
    }
}

} // verus!
