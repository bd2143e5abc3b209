//! An unbalanced binary search tree over `u64` values.
//!
//! Duplicate values are ignored. Operations on values not in the tree are
//! ignored. Deletion is deliberately lossy: deleting a non-root value
//! discards that node's entire subtree, and deleting the root keeps only
//! the rightmost node of the root's left subtree (with that node's own left
//! subtree); this unusual behaviour is part of the documented contract, and
//! the `spec_delete` family of specification functions states it exactly.
//!
//! Height is counted in node levels: the empty tree has height 0, a single
//! node has height 1, and a root with two children has height 2.

use vstd::prelude::*;

verus! {

/// A node of the binary search tree: one value and two exclusively owned
/// optional children.
pub struct BstNode {
    pub left: Option<Box<BstNode>>,
    pub right: Option<Box<BstNode>>,
    pub data: u64,
}

/// An unbalanced binary search tree: for every node, all values in its left
/// subtree are smaller than the node's value and all values in its right
/// subtree are larger (see [`BstNode::well_formed`]).
pub struct BinarySearchTree {
    pub root: Option<Box<BstNode>>,
}

/// The set of values stored in an optional subtree.
pub open spec fn opt_value_set(o: Option<Box<BstNode>>) -> Set<u64>
    decreases o,
{
    match o {
        None => Set::empty(),
        Some(n) => n.value_set(),
    }
}

/// The number of nodes in an optional subtree.
pub open spec fn opt_count(o: Option<Box<BstNode>>) -> nat
    decreases o,
{
    match o {
        None => 0,
        Some(n) => n.count(),
    }
}

/// The number of node levels on the longest path in an optional subtree.
pub open spec fn opt_levels(o: Option<Box<BstNode>>) -> nat
    decreases o,
{
    match o {
        None => 0,
        Some(n) => n.levels(),
    }
}

/// The search-tree ordering invariant of an optional subtree.
pub open spec fn opt_well_formed(o: Option<Box<BstNode>>) -> bool
    decreases o,
{
    match o {
        None => true,
        Some(n) => n.well_formed(),
    }
}

impl BstNode {
    /// The set of values stored in the subtree rooted at this node.
    pub open spec fn value_set(self) -> Set<u64>
        decreases self,
    {
        opt_value_set(self.left).union(opt_value_set(self.right)).insert(self.data)
    }

    /// The number of nodes in the subtree rooted at this node.
    pub open spec fn count(self) -> nat
        decreases self,
    {
        1 + opt_count(self.left) + opt_count(self.right)
    }

    /// The number of node levels on the longest path from this node to a
    /// leaf, counting this node itself (so a lone node has 1 level).
    pub open spec fn levels(self) -> nat
        decreases self,
    {
        let l = opt_levels(self.left);
        let r = opt_levels(self.right);
        1 + (if l >= r { l } else { r })
    }

    /// The ordering invariant: values to the left are smaller, values to
    /// the right are larger, recursively. It rules out duplicates.
    pub open spec fn well_formed(self) -> bool
        decreases self,
    {
        &&& (forall|x: u64| opt_value_set(self.left).contains(x) ==> x < self.data)
        &&& (forall|x: u64| opt_value_set(self.right).contains(x) ==> x > self.data)
        &&& opt_well_formed(self.left)
        &&& opt_well_formed(self.right)
    }

    fn new(data: u64) -> (n: Self)
        ensures
            n.data == data,
            n.left is None,
            n.right is None,
            n.well_formed(),
            n.value_set() == Set::empty().insert(data),
            n.count() == 1,
            n.levels() == 1,
    {
        let n = Self { data, left: None, right: None };
        proof {
            assert(n.value_set() =~= Set::empty().insert(data));
        }
        n
    }
}

/// Where insertion puts a value below a node: a value equal to the node's is
/// ignored, a smaller value goes into the left child and a larger one into
/// the right child, and a new leaf is created where that child is absent.
pub open spec fn spec_insert_below(n: BstNode, value: u64) -> BstNode
    decreases n,
{
    if n.data == value {
        n
    } else if value < n.data {
        match n.left {
            None => BstNode {
                data: n.data,
                left: Some(Box::new(BstNode { data: value, left: None, right: None })),
                right: n.right,
            },
            Some(child) => BstNode {
                data: n.data,
                left: Some(Box::new(spec_insert_below(*child, value))),
                right: n.right,
            },
        }
    } else {
        match n.right {
            None => BstNode {
                data: n.data,
                left: n.left,
                right: Some(Box::new(BstNode { data: value, left: None, right: None })),
            },
            Some(child) => BstNode {
                data: n.data,
                left: n.left,
                right: Some(Box::new(spec_insert_below(*child, value))),
            },
        }
    }
}

/// Where insertion puts a value in the whole tree: into an empty tree as the
/// root, otherwise below the root as [`spec_insert_below`] says.
pub open spec fn spec_insert(root: Option<Box<BstNode>>, value: u64) -> Option<Box<BstNode>> {
    match root {
        None => Some(Box::new(BstNode { data: value, left: None, right: None })),
        Some(n) => Some(Box::new(spec_insert_below(*n, value))),
    }
}

/// Standard recursive descent insertion below an existing node: equal values
/// are silently ignored, smaller values go left, larger values go right, and
/// a new leaf is created where the chosen child is absent.
fn insert(node: &mut BstNode, value: u64)
    requires
        old(node).well_formed(),
    ensures
        *final(node) == spec_insert_below(*old(node), value),
        final(node).well_formed(),
        final(node).data == old(node).data,
        final(node).value_set() =~= old(node).value_set().insert(value),
        final(node).count() == (if old(node).value_set().contains(value) {
            old(node).count()
        } else {
            old(node).count() + 1
        }),
    decreases *old(node),
{
    if node.data == value {
        proof {
            assert(node.value_set() =~= node.value_set().insert(value));
        }
        return ;
    }

    if value < node.data {
        match node.left.take() {
            Some(mut child) => {
                insert(&mut child, value);
                node.left = Some(child);
            },
            None => {
                node.left = Some(Box::new(BstNode::new(value)));
            },
        }
        proof {
            assert(opt_value_set(node.left) =~= opt_value_set(old(node).left).insert(value));
            assert(!opt_value_set(node.right).contains(value));
            assert(node.value_set() =~= old(node).value_set().insert(value));
        }
    } else {
        match node.right.take() {
            Some(mut child) => {
                insert(&mut child, value);
                node.right = Some(child);
            },
            None => {
                node.right = Some(Box::new(BstNode::new(value)));
            },
        }
        proof {
            assert(opt_value_set(node.right) =~= opt_value_set(old(node).right).insert(value));
            assert(!opt_value_set(node.left).contains(value));
            assert(node.value_set() =~= old(node).value_set().insert(value));
        }
    }
}

/// Standard recursive descent membership test below a node: the ordering
/// invariant lets the search follow a single path.
pub fn contains(node: &Box<BstNode>, value: u64) -> (r: bool)
    requires
        node.well_formed(),
    ensures
        r == node.value_set().contains(value),
    decreases node,
{
    if node.data == value {
        true
    } else if value < node.data {
        proof {
            assert(!opt_value_set(node.right).contains(value));
        }
        match &node.left {
            Some(child) => contains(child, value),
            None => false,
        }
    } else {
        proof {
            assert(!opt_value_set(node.left).contains(value));
        }
        match &node.right {
            Some(child) => contains(child, value),
            None => false,
        }
    }
}

/// The value at the leftmost node below `node`: the smallest value in the
/// subtree, by the ordering invariant.
pub fn min(node: &Box<BstNode>) -> (r: Option<u64>)
    requires
        node.well_formed(),
    ensures
        (r matches Some(m) && node.value_set().contains(m)),
        (r matches Some(m) ==> forall|x: u64| node.value_set().contains(x) ==> m <= x),
    decreases node,
{
    match &node.left {
        Some(child) => {
            let r = min(child);
            proof {
                let m = r.unwrap();
                assert forall|x: u64| node.value_set().contains(x) implies m <= x by {
                    if opt_value_set(node.right).contains(x) {
                        assert(opt_value_set(node.left).contains(m));
                    }
                }
            }
            r
        },
        None => {
            proof {
                assert forall|x: u64| node.value_set().contains(x) implies node.data <= x by {
                    assert(opt_value_set(node.left) =~= Set::<u64>::empty());
                    if opt_value_set(node.right).contains(x) {
                        assert(x > node.data);
                    } else {
                        assert(x == node.data);
                    }
                }
            }
            Some(node.data)
        },
    }
}

/// The value at the rightmost node below `node`: the largest value in the
/// subtree, by the ordering invariant.
pub fn max(node: &Box<BstNode>) -> (r: Option<u64>)
    requires
        node.well_formed(),
    ensures
        (r matches Some(m) && node.value_set().contains(m)),
        (r matches Some(m) ==> forall|x: u64| node.value_set().contains(x) ==> m >= x),
    decreases node,
{
    match &node.right {
        Some(child) => {
            let r = max(child);
            proof {
                let m = r.unwrap();
                assert forall|x: u64| node.value_set().contains(x) implies m >= x by {
                    if opt_value_set(node.left).contains(x) {
                        assert(opt_value_set(node.right).contains(m));
                    }
                }
            }
            r
        },
        None => {
            proof {
                assert forall|x: u64| node.value_set().contains(x) implies node.data >= x by {
                    assert(opt_value_set(node.right) =~= Set::<u64>::empty());
                    if opt_value_set(node.left).contains(x) {
                        assert(x < node.data);
                    } else {
                        assert(x == node.data);
                    }
                }
            }
            Some(node.data)
        },
    }
}

/// The view of a tree built from an empty tree by one `insert` call per
/// element of `vals`, in order: by `insert`'s postcondition, each call turns
/// the view `s` into `s.insert(value)`.
pub open spec fn inserted_view(vals: Seq<u64>) -> Set<u64>
    decreases vals.len(),
{
    if vals.len() == 0 {
        Set::empty()
    } else {
        inserted_view(vals.drop_last()).insert(vals.last())
    }
}

/// Law: a tree built from empty only via `insert` stores exactly the
/// inserted values. Together with `contains`'s postcondition, `contains(v)`
/// is true on such a tree for every inserted value and false for every value
/// never inserted.
pub proof fn lemma_insert_run_view(vals: Seq<u64>)
    ensures
        inserted_view(vals) == vals.to_set(),
        forall|v: u64| inserted_view(vals).contains(v) <==> vals.contains(v),
    decreases vals.len(),
{
    if vals.len() == 0 {
        assert(inserted_view(vals) =~= vals.to_set());
        assert forall|v: u64| !vals.contains(v) by {}
    } else {
        lemma_insert_run_view(vals.drop_last());
        assert forall|v: u64| inserted_view(vals).contains(v) <==> vals.contains(v) by {
            if inserted_view(vals).contains(v) {
                if vals.drop_last().contains(v) {
                    let i = choose|i: int|
                        0 <= i < vals.drop_last().len() && vals.drop_last()[i] == v;
                    assert(vals[i] == v);
                } else {
                    assert(v == vals.last());
                    assert(vals[vals.len() - 1] == v);
                }
            }
            if vals.contains(v) {
                let i = choose|i: int| 0 <= i < vals.len() && vals[i] == v;
                if i < vals.len() - 1 {
                    assert(vals.drop_last()[i] == v);
                    assert(vals.drop_last().contains(v));
                } else {
                    assert(vals.last() == v);
                }
            }
        }
        assert(inserted_view(vals) =~= vals.to_set());
    }
}

/// Law: on a well-formed tree the size is the number of distinct stored
/// values, so a tree built from empty only via `insert` — whose view is the
/// set of inserted values — has size equal to the count of insert calls with
/// distinct values.
pub proof fn lemma_size_is_distinct_count(t: BinarySearchTree)
    requires
        t.well_formed(),
    ensures
        t.spec_size() == t@.len(),
        t@.finite(),
{
    match t.root {
        Some(n) => lemma_count_is_cardinality(*n),
        None => {
            assert(t@ =~= Set::<u64>::empty());
        },
    }
}

/// The rightmost node of the subtree rooted at `n`, keeping that node's own
/// left subtree: the "successor" promoted when the root is deleted.
pub open spec fn spec_rightmost(n: BstNode) -> BstNode
    decreases n,
{
    match n.right {
        None => n,
        Some(child) => spec_rightmost(*child),
    }
}

/// Deletion below a node already known not to match: descend towards the
/// value, and when a child matches, discard that child together with its
/// entire subtree. This lossy behaviour is the documented contract, not a
/// bug to fix; a value that is absent leaves the tree unchanged.
pub open spec fn spec_delete_below(n: BstNode, value: u64) -> BstNode
    decreases n,
{
    if value < n.data {
        match n.left {
            None => n,
            Some(child) => if child.data == value {
                BstNode { data: n.data, left: None, right: n.right }
            } else {
                BstNode {
                    data: n.data,
                    left: Some(Box::new(spec_delete_below(*child, value))),
                    right: n.right,
                }
            },
        }
    } else {
        match n.right {
            None => n,
            Some(child) => if child.data == value {
                BstNode { data: n.data, left: n.left, right: None }
            } else {
                BstNode {
                    data: n.data,
                    left: n.left,
                    right: Some(Box::new(spec_delete_below(*child, value))),
                }
            },
        }
    }
}

/// Deletion at the root of the whole tree. A matching root with one child is
/// replaced by that child; with two children it is replaced by the rightmost
/// node of its left subtree (the other nodes of the old tree are discarded),
/// after which the usual descent below the new root runs. A non-matching
/// root keeps its place and the descent runs below it.
pub open spec fn spec_delete(root: Option<Box<BstNode>>, value: u64) -> Option<Box<BstNode>> {
    match root {
        None => None,
        Some(n) => if n.data == value {
            if n.right is None {
                n.left
            } else if n.left is None {
                n.right
            } else {
                Some(Box::new(spec_delete_below(spec_rightmost(*n.left.unwrap()), value)))
            }
        } else {
            Some(Box::new(spec_delete_below(*n, value)))
        },
    }
}

/// What holds of the promoted successor: it is the largest value of the
/// subtree, it is well-formed, it has no right child, and it stores a subset
/// of the subtree's values.
pub proof fn lemma_rightmost(n: BstNode)
    requires
        n.well_formed(),
    ensures
        spec_rightmost(n).well_formed(),
        spec_rightmost(n).right is None,
        n.value_set().contains(spec_rightmost(n).data),
        spec_rightmost(n).value_set().subset_of(n.value_set()),
        forall|x: u64| n.value_set().contains(x) ==> x <= spec_rightmost(n).data,
    decreases n,
{
    match n.right {
        None => {
            assert(opt_value_set(n.right) =~= Set::<u64>::empty());
            assert(spec_rightmost(n).value_set() =~= n.value_set());
            assert forall|x: u64| n.value_set().contains(x) implies x <= n.data by {
                if opt_value_set(n.left).contains(x) {
                    assert(x < n.data);
                }
            }
        },
        Some(child) => {
            lemma_rightmost(*child);
            let m = spec_rightmost(*child).data;
            assert(n.value_set().contains(m));
            assert forall|x: u64| n.value_set().contains(x) implies x <= m by {
                if opt_value_set(n.right).contains(x) {
                } else {
                    assert(opt_value_set(n.right).contains(m));
                    if opt_value_set(n.left).contains(x) {
                        assert(x < n.data);
                    } else {
                        assert(x == n.data);
                    }
                    assert(m > n.data);
                }
            }
        },
    }
}

/// What deletion below a non-matching node does to the subtree: the root
/// value stays, well-formedness is preserved, the result stores a subset of
/// the old values with the deleted value gone, and an absent value leaves
/// the subtree unchanged.
pub proof fn lemma_delete_below(n: BstNode, value: u64)
    requires
        n.well_formed(),
        n.data != value,
    ensures
        spec_delete_below(n, value).well_formed(),
        spec_delete_below(n, value).data == n.data,
        spec_delete_below(n, value).value_set().subset_of(n.value_set()),
        !spec_delete_below(n, value).value_set().contains(value),
        !n.value_set().contains(value) ==> spec_delete_below(n, value) == n,
    decreases n,
{
    let d = spec_delete_below(n, value);
    if value < n.data {
        assert(!opt_value_set(n.right).contains(value));
        match n.left {
            None => {
                assert(opt_value_set(n.left) =~= Set::<u64>::empty());
                assert(d == n);
            },
            Some(child) => {
                assert(child.value_set().contains(child.data));
                if child.data == value {
                    assert(n.value_set().contains(value));
                    assert(opt_value_set(d.left) =~= Set::<u64>::empty());
                    assert(d.value_set() =~= opt_value_set(n.right).insert(n.data));
                } else {
                    lemma_delete_below(*child, value);
                    let dc = spec_delete_below(*child, value);
                    assert(opt_value_set(d.left) == dc.value_set());
                    assert forall|x: u64| opt_value_set(d.left).contains(x) implies x
                        < d.data by {
                        assert(dc.value_set().contains(x));
                        assert(child.value_set().contains(x));
                        assert(opt_value_set(n.left).contains(x));
                        assert(x < n.data);
                    }
                    assert forall|x: u64| d.value_set().contains(x) implies n.value_set().contains(
                        x,
                    ) by {
                        if opt_value_set(d.left).contains(x) {
                            assert(child.value_set().contains(x));
                        }
                    }
                    if !n.value_set().contains(value) {
                        assert(!child.value_set().contains(value));
                        assert(dc == *child);
                        assert(d == n);
                    }
                }
            },
        }
    } else {
        assert(!opt_value_set(n.left).contains(value));
        match n.right {
            None => {
                assert(opt_value_set(n.right) =~= Set::<u64>::empty());
                assert(d == n);
            },
            Some(child) => {
                assert(child.value_set().contains(child.data));
                if child.data == value {
                    assert(n.value_set().contains(value));
                    assert(opt_value_set(d.right) =~= Set::<u64>::empty());
                    assert(d.value_set() =~= opt_value_set(n.left).insert(n.data));
                } else {
                    lemma_delete_below(*child, value);
                    let dc = spec_delete_below(*child, value);
                    assert(opt_value_set(d.right) == dc.value_set());
                    assert forall|x: u64| opt_value_set(d.right).contains(x) implies x
                        > d.data by {
                        assert(dc.value_set().contains(x));
                        assert(child.value_set().contains(x));
                        assert(opt_value_set(n.right).contains(x));
                        assert(x > n.data);
                    }
                    assert forall|x: u64| d.value_set().contains(x) implies n.value_set().contains(
                        x,
                    ) by {
                        if opt_value_set(d.right).contains(x) {
                            assert(child.value_set().contains(x));
                        }
                    }
                    if !n.value_set().contains(value) {
                        assert(!child.value_set().contains(value));
                        assert(dc == *child);
                        assert(d == n);
                    }
                }
            },
        }
    }
}

/// Consumes a subtree and returns its rightmost node, with that node's own
/// left subtree still attached; everything above it is discarded.
fn get_successor(node: Box<BstNode>) -> (r: Option<Box<BstNode>>)
    ensures
        (r matches Some(b) && *b == spec_rightmost(*node)),
    decreases *node,
{
    if node.right.is_none() {
        return Some(node);
    }

    let mut node = node;
    get_successor(node.right.take().unwrap())
}

/// Recursive descent deletion below a node already checked not to match;
/// see [`spec_delete_below`] for the exact (lossy) behaviour.
fn delete(node: &mut BstNode, value: u64)
    requires
        old(node).well_formed(),
        old(node).data != value,
    ensures
        *final(node) == spec_delete_below(*old(node), value),
        final(node).well_formed(),
        !final(node).value_set().contains(value),
    decreases *old(node),
{
    proof {
        lemma_delete_below(*node, value);
    }
    if value < node.data {
        match node.left.take() {
            None => {},
            Some(mut child) => {
                if child.data == value {
                    // the matching child leaves with its whole subtree
                } else {
                    delete(&mut child, value);
                    node.left = Some(child);
                }
            },
        }
    } else {
        match node.right.take() {
            None => {},
            Some(mut child) => {
                if child.data == value {
                    // the matching child leaves with its whole subtree
                } else {
                    delete(&mut child, value);
                    node.right = Some(child);
                }
            },
        }
    }
}

/// The value set of a subtree is finite, with at most `count` elements; under
/// the ordering invariant no value occurs twice, so the cardinality of the
/// value set is exactly the node count.
pub proof fn lemma_count_is_cardinality(n: BstNode)
    requires
        n.well_formed(),
    ensures
        n.value_set().finite(),
        n.value_set().len() == n.count(),
    decreases n,
{
    let l = opt_value_set(n.left);
    let r = opt_value_set(n.right);
    match n.left {
        Some(child) => lemma_count_is_cardinality(*child),
        None => assert(l =~= Set::<u64>::empty()),
    }
    match n.right {
        Some(child) => lemma_count_is_cardinality(*child),
        None => assert(r =~= Set::<u64>::empty()),
    }
    assert(l.disjoint(r));
    vstd::set_lib::lemma_set_disjoint_lens(l, r);
    assert(l + r =~= l.union(r));
    assert(!l.union(r).contains(n.data));
}

/// The number of nodes below `node`, this node included, by full traversal.
pub fn size(node: &Box<BstNode>) -> (r: usize)
    requires
        node.count() <= usize::MAX,
    ensures
        r == node.count(),
    decreases node,
{
    let mut total: usize = 1;
    match &node.left {
        Some(child) => {
            total = total + size(child);
        },
        None => {},
    }
    match &node.right {
        Some(child) => {
            total = total + size(child);
        },
        None => {},
    }
    total
}

/// The number of node levels on the longest path below `node`, this node's
/// level included, by full traversal.
pub fn height(node: &Box<BstNode>) -> (r: usize)
    requires
        node.levels() <= usize::MAX,
    ensures
        r == node.levels(),
    decreases node,
{
    let left_levels: usize = match &node.left {
        Some(child) => height(child),
        None => 0,
    };
    let right_levels: usize = match &node.right {
        Some(child) => height(child),
        None => 0,
    };
    let deepest: usize = if left_levels >= right_levels {
        left_levels
    } else {
        right_levels
    };
    deepest + 1
}

impl View for BinarySearchTree {
    type V = Set<u64>;

    /// A tree is viewed as the set of values it stores.
    open spec fn view(&self) -> Set<u64> {
        opt_value_set(self.root)
    }
}

impl BinarySearchTree {
    /// The ordering invariant, maintained by every operation.
    pub open spec fn well_formed(self) -> bool {
        opt_well_formed(self.root)
    }

    /// The number of nodes in the tree.
    pub open spec fn spec_size(self) -> nat {
        opt_count(self.root)
    }

    /// The height of the tree in node levels: 0 when empty, 1 for a lone
    /// root, 2 for a root with a child, and so on.
    pub open spec fn spec_height(self) -> nat {
        opt_levels(self.root)
    }

    /// Constructs an empty tree, or a single-node tree when a value is
    /// supplied.
    pub fn new(data: Option<u64>) -> (t: Self)
        ensures
            t.well_formed(),
            (data matches Some(d) ==> t.root == spec_insert(None, d) && t@ == Set::empty().insert(
                d,
            ) && t.spec_size() == 1 && t.spec_height() == 1),
            (data is None ==> t@ == Set::<u64>::empty() && t.spec_size() == 0
                && t.spec_height() == 0),
            t.root is Some <==> data is Some,
    {
        match data {
            Some(data) => Self { root: Some(Box::new(BstNode::new(data))) },
            None => Self { root: None },
        }
    }

    /// Inserts a value at the standard search position (see
    /// [`spec_insert`]); inserting a value already present changes nothing,
    /// so the size grows exactly when the value is new.
    pub fn insert(&mut self, value: u64)
        requires
            old(self).well_formed(),
        ensures
            final(self).root == spec_insert(old(self).root, value),
            final(self).well_formed(),
            final(self)@ == old(self)@.insert(value),
            final(self).spec_size() == (if old(self)@.contains(value) {
                old(self).spec_size()
            } else {
                old(self).spec_size() + 1
            }),
    {
        match self.root.take() {
            None => {
                self.root = Some(Box::new(BstNode::new(value)));
                proof {
                    assert(self@ =~= old(self)@.insert(value));
                }
            },
            Some(mut boxed) => {
                insert(&mut boxed, value);
                self.root = Some(boxed);
            },
        }
    }

    /// Deletes a value, with this library's documented lossy semantics (see
    /// [`spec_delete`]): a matching root is replaced by a child or by the
    /// rightmost node of its left subtree, discarding the rest of the tree;
    /// a matching non-root node leaves together with its whole subtree; a
    /// value not present (and an empty tree) is a no-op. Afterwards the
    /// value is gone, no new values have appeared, and the tree is still
    /// well-formed.
    pub fn delete(&mut self, value: u64)
        requires
            old(self).well_formed(),
        ensures
            final(self).well_formed(),
            final(self).root == spec_delete(old(self).root, value),
            !final(self)@.contains(value),
            final(self)@.subset_of(old(self)@),
            (!old(self)@.contains(value) ==> *final(self) == *old(self)),
    {
        match self.root.take() {
            None => {
                proof {
                    assert(self@ =~= Set::<u64>::empty());
                }
            },
            Some(mut boxed) => {
                proof {
                    assert(old(self)@.contains(boxed.data));
                }
                if boxed.data == value {
                    if boxed.right.is_none() {
                        proof {
                            assert(opt_value_set(boxed.right) =~= Set::<u64>::empty());
                            assert(!opt_value_set(boxed.left).contains(value));
                        }
                        self.root = boxed.left;
                    } else if boxed.left.is_none() {
                        proof {
                            assert(opt_value_set(boxed.left) =~= Set::<u64>::empty());
                            assert(!opt_value_set(boxed.right).contains(value));
                        }
                        self.root = boxed.right;
                    } else {
                        let ghost l = *boxed.left.unwrap();
                        proof {
                            assert(boxed.well_formed());
                            assert(boxed.left matches Some(c) && *c == l);
                            assert(opt_well_formed(boxed.left));
                            assert(l.well_formed());
                            lemma_rightmost(l);
                            assert(l.value_set().contains(spec_rightmost(l).data));
                            assert(opt_value_set(boxed.left).contains(spec_rightmost(l).data));
                            assert(spec_rightmost(l).data < boxed.data);
                        }
                        let succ = get_successor(boxed.left.take().unwrap());
                        let mut s = succ.unwrap();
                        delete(&mut *s, value);
                        proof {
                            lemma_delete_below(spec_rightmost(l), value);
                        }
                        self.root = Some(s);
                    }
                } else {
                    proof {
                        lemma_delete_below(*boxed, value);
                    }
                    delete(&mut *boxed, value);
                    self.root = Some(boxed);
                }
            },
        }
    }

    /// Returns whether a node with exactly this value exists.
    pub fn contains(&self, value: u64) -> (r: bool)
        requires
            self.well_formed(),
        ensures
            r == self@.contains(value),
    {
        match &self.root {
            None => false,
            Some(node) => contains(node, value),
        }
    }

    /// The smallest value in the tree, or `None` when the tree is empty.
    pub fn min(&self) -> (r: Option<u64>)
        requires
            self.well_formed(),
        ensures
            r is None <==> self.root is None,
            r is None <==> self@ == Set::<u64>::empty(),
            (r matches Some(m) ==> self@.contains(m) && (forall|x: u64|
                self@.contains(x) ==> m <= x)),
    {
        proof {
            if self.root is None {
                assert(self@ =~= Set::<u64>::empty());
            } else {
                assert(self@.contains(self.root.unwrap().data));
            }
        }
        match &self.root {
            None => None,
            Some(node) => min(node),
        }
    }

    /// The largest value in the tree, or `None` when the tree is empty.
    pub fn max(&self) -> (r: Option<u64>)
        requires
            self.well_formed(),
        ensures
            r is None <==> self.root is None,
            r is None <==> self@ == Set::<u64>::empty(),
            (r matches Some(m) ==> self@.contains(m) && (forall|x: u64|
                self@.contains(x) ==> m >= x)),
    {
        proof {
            if self.root is None {
                assert(self@ =~= Set::<u64>::empty());
            } else {
                assert(self@.contains(self.root.unwrap().data));
            }
        }
        match &self.root {
            None => None,
            Some(node) => max(node),
        }
    }

    /// True iff the tree has no root.
    pub fn is_empty(&self) -> (r: bool)
        ensures
            r == (self.root is None),
            r <==> self@ == Set::<u64>::empty(),
    {
        proof {
            if self.root is None {
                assert(self@ =~= Set::<u64>::empty());
            } else {
                assert(self@.contains(self.root.unwrap().data));
            }
        }
        self.root.is_none()
    }

    /// The number of nodes reachable from the root (0 when empty). On a
    /// well-formed tree this equals the number of distinct stored values.
    pub fn size(&self) -> (r: usize)
        requires
            self.spec_size() <= usize::MAX,
        ensures
            r == self.spec_size(),
            self.well_formed() ==> r == self@.len(),
    {
        proof {
            if self.well_formed() {
                match &self.root {
                    Some(node) => lemma_count_is_cardinality(**node),
                    None => assert(self@ =~= Set::<u64>::empty()),
                }
            }
        }
        match &self.root {
            None => 0,
            Some(node) => size(node),
        }
    }

    /// The number of node levels on the longest root-to-leaf path: 0 for an
    /// empty tree, 1 for a lone root, 2 for a root with a child.
    pub fn height(&self) -> (r: usize)
        requires
            self.spec_height() <= usize::MAX,
        ensures
            r == self.spec_height(),
    {
        match &self.root {
            None => 0,
            Some(node) => height(node),
        }
    }

    /// Discards the entire tree, resetting it to empty.
    pub fn clear(&mut self)
        ensures
            final(self).root is None,
            final(self)@ == Set::<u64>::empty(),
            final(self).well_formed(),
            final(self).spec_size() == 0,
            final(self).spec_height() == 0,
    {
        proof {
            assert(opt_value_set(None::<Box<BstNode>>) =~= Set::<u64>::empty());
        }
        self.root = None;
    }
}

} // verus!
