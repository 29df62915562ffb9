//! A row kept as a height-balanced search tree of block indices.

use vstd::prelude::*;
use crate::line::{indices, BuddyCollection, BuddyLine};
use crate::order::{buddy_index, parent_index};

verus! {

/// A search tree of block indices; `None` is the empty tree.
pub struct Tree(pub Option<Box<Node>>);

/// A node of the tree: a block index, the subtrees of the smaller and of the
/// larger indices, and the height of the tree that the node is the root of.
pub struct Node {
    pub idx: usize,
    pub l: Tree,
    pub r: Tree,
    pub h: usize,
}

impl Node {
    /// The balance factor: the height of the left subtree less that of the
    /// right one.
    pub fn bf(&self) -> (r: i128)
        requires
            self.l.ok(),
            self.r.ok(),
        ensures
            r == self.l.tall() - self.r.tall(),
    {
        self.l.height() as i128 - self.r.height() as i128
    }

    /// A node over two subtrees, with its height: one more than that of the
    /// higher subtree.
    pub fn update(idx: usize, l: Tree, r: Tree) -> (t: Tree)
        requires
            l.ok(),
            r.ok(),
            idx < usize::MAX,
            l.within(0, idx as int),
            r.within(idx + 1, usize::MAX as int),
        ensures
            t.ok(),
            t == join(idx, l, r),
            t.keys() =~= l.keys().union(r.keys()).insert(idx as int),
            t.tall() == 1 + vstd::math::max(l.tall() as int, r.tall() as int),
    {
        proof {
            l.lemma_height_bound(0, idx as int);
            r.lemma_height_bound(idx + 1, usize::MAX as int);
        }
        let lh = l.height();
        let rh = r.height();
        let h = if lh > rh {
            lh + 1
        } else {
            rh + 1
        };
        Tree(Some(Box::new(Node { idx, l, r, h })))
    }
}

/// The tree with `idx` at the root over the subtrees `l` and `r`.
pub open spec fn join(idx: usize, l: Tree, r: Tree) -> Tree {
    Tree(
        Some(
            Box::new(
                Node { idx, l, r, h: (1 + vstd::math::max(l.tall() as int, r.tall() as int)) as usize },
            ),
        ),
    )
}

impl Tree {
    /// The indices in the tree.
    pub open spec fn keys(self) -> Set<int>
        decreases self,
    {
        match self.0 {
            None => Set::empty(),
            Some(n) => n.l.keys().union(n.r.keys()).insert(n.idx as int),
        }
    }

    /// The height: 0 for the empty tree, 1 for a single node.
    pub open spec fn tall(self) -> nat
        decreases self,
    {
        match self.0 {
            None => 0,
            Some(n) => (1 + vstd::math::max(n.l.tall() as int, n.r.tall() as int)) as nat,
        }
    }

    /// Every index of the tree lies in `[lo, hi)`.
    pub open spec fn within(self, lo: int, hi: int) -> bool {
        forall|k: int| self.keys().contains(k) ==> lo <= k < hi
    }

    /// The tree is a search tree, and each node records its height.
    pub open spec fn ok(self) -> bool
        decreases self,
    {
        match self.0 {
            None => true,
            Some(n) => {
                &&& n.l.ok()
                &&& n.r.ok()
                &&& n.idx < usize::MAX
                &&& n.l.within(0, n.idx as int)
                &&& n.r.within(n.idx + 1, usize::MAX as int)
                &&& n.h == 1 + vstd::math::max(n.l.tall() as int, n.r.tall() as int)
            },
        }
    }

    /// At every node the heights of the two subtrees differ by one at most.
    pub open spec fn balanced(self) -> bool
        decreases self,
    {
        match self.0 {
            None => true,
            Some(n) => {
                &&& n.l.balanced()
                &&& n.r.balanced()
                &&& -1 <= n.l.tall() - n.r.tall() <= 1
            },
        }
    }

    /// The balance factor at the root; 0 for the empty tree.
    pub open spec fn lean(self) -> int {
        match self.0 {
            None => 0,
            Some(n) => n.l.tall() - n.r.tall(),
        }
    }

    /// Balanced below the root, and out of balance by two at most at the
    /// root.
    pub open spec fn nearly_balanced(self) -> bool {
        match self.0 {
            None => true,
            Some(n) => n.l.balanced() && n.r.balanced() && -2 <= self.lean() <= 2,
        }
    }

    /// A search tree over `[lo, hi)` is no higher than the range is long.
    pub proof fn lemma_height_bound(self, lo: int, hi: int)
        requires
            self.ok(),
            self.within(lo, hi),
        ensures
            self.tall() <= vstd::math::max(hi - lo, 0),
        decreases self,
    {
        if let Some(n) = self.0 {
            assert(self.keys().contains(n.idx as int));
            assert forall|k: int| n.l.keys().contains(k) implies lo <= k < n.idx by {
                assert(self.keys().contains(k));
            }
            assert forall|k: int| n.r.keys().contains(k) implies n.idx + 1 <= k < hi by {
                assert(self.keys().contains(k));
            }
            n.l.lemma_height_bound(lo, n.idx as int);
            n.r.lemma_height_bound(n.idx + 1, hi);
        }
    }

    /// A tree holds finitely many indices, all of them below the largest
    /// machine word.
    pub proof fn lemma_keys(self)
        requires
            self.ok(),
        ensures
            self.keys().finite(),
            self.within(0, usize::MAX as int),
        decreases self,
    {
        if let Some(n) = self.0 {
            n.l.lemma_keys();
            n.r.lemma_keys();
        }
    }

    /// The indices of the tree, smallest first.
    pub open spec fn inorder(self) -> Seq<usize>
        decreases self,
    {
        match self.0 {
            None => Seq::empty(),
            Some(n) => n.l.inorder().push(n.idx) + n.r.inorder(),
        }
    }

    /// Read from left to right, a search tree lists each of its indices once,
    /// smallest first.
    pub proof fn lemma_inorder(self)
        requires
            self.ok(),
        ensures
            indices(self.inorder()).to_set() =~= self.keys(),
            forall|p: int, q: int|
                0 <= p < q < self.inorder().len() ==> self.inorder()[p] < self.inorder()[q],
        decreases self,
    {
        if let Some(n) = self.0 {
            n.l.lemma_inorder();
            n.r.lemma_inorder();
            let a = n.l.inorder();
            let b = n.r.inorder();
            let s = self.inorder();
            let la = a.len() as int;
            assert forall|x: int| indices(s).to_set().contains(x) == self.keys().contains(x) by {
                if indices(s).contains(x) {
                    let p = choose|p: int| 0 <= p < s.len() && indices(s)[p] == x;
                    if p < la {
                        assert(indices(a)[p] == x);
                        assert(indices(a).to_set().contains(x));
                    } else if p > la {
                        assert(indices(b)[p - la - 1] == x);
                        assert(indices(b).to_set().contains(x));
                    }
                }
                if n.l.keys().contains(x) {
                    assert(indices(a).to_set().contains(x));
                    let p = choose|p: int| 0 <= p < a.len() && indices(a)[p] == x;
                    assert(indices(s)[p] == x);
                }
                if n.r.keys().contains(x) {
                    assert(indices(b).to_set().contains(x));
                    let p = choose|p: int| 0 <= p < b.len() && indices(b)[p] == x;
                    assert(indices(s)[p + la + 1] == x);
                }
                if x == n.idx {
                    assert(indices(s)[la] == x);
                }
            }
            assert forall|p: int, q: int| 0 <= p < q < s.len() implies s[p] < s[q] by {
                if p < la {
                    assert(indices(a)[p] == a[p]);
                    assert(indices(a).to_set().contains(a[p] as int));
                }
                if q > la {
                    assert(indices(b)[q - la - 1] == b[q - la - 1]);
                    assert(indices(b).to_set().contains(b[q - la - 1] as int));
                }
                if p > la {
                    assert(indices(b)[p - la - 1] == b[p - la - 1]);
                    assert(indices(b).to_set().contains(b[p - la - 1] as int));
                }
                if q < la {
                    assert(indices(a)[q] == a[q]);
                }
            }
        }
    }

    /// Appends the indices of the tree to `out`, smallest first.
    pub fn collect(&self, out: &mut Vec<usize>)
        ensures
            final(out)@ == old(out)@ + self.inorder(),
        decreases self,
    {
        if let Some(n) = &self.0 {
            n.l.collect(out);
            out.push(n.idx);
            n.r.collect(out);
            assert(out@ == old(out)@ + self.inorder());
        } else {
            assert(out@ == old(out)@ + self.inorder());
        }
    }

    /// The height of the tree.
    pub fn height(&self) -> (h: usize)
        requires
            self.ok(),
        ensures
            h == self.tall(),
    {
        match &self.0 {
            None => 0,
            Some(n) => n.h,
        }
    }

    /// Turns the tree to the right: the left child becomes the root.
    pub fn rotate_r(self) -> (t: Tree)
        requires
            self.ok(),
            self.0.is_some(),
            self.0.unwrap().l.0.is_some(),
        ensures
            t.ok(),
            t.0.is_some(),
            t.keys() =~= self.keys(),
            t == join(
                self.0.unwrap().l.0.unwrap().idx,
                self.0.unwrap().l.0.unwrap().l,
                join(self.0.unwrap().idx, self.0.unwrap().l.0.unwrap().r, self.0.unwrap().r),
            ),
    {
        let a = *self.0.unwrap();
        let b = *a.l.0.unwrap();
        proof {
            reveal_with_fuel(Tree::ok, 2);
            reveal_with_fuel(Tree::keys, 2);
            reveal_with_fuel(Tree::tall, 2);
            b.l.lemma_keys();
            b.r.lemma_keys();
            a.r.lemma_keys();
            assert(a.l.keys().contains(b.idx as int));
            assert forall|k: int| b.r.keys().contains(k) implies 0 <= k < a.idx by {
                assert(a.l.keys().contains(k));
            }
        }
        let right = Node::update(a.idx, b.r, a.r);
        Node::update(b.idx, b.l, right)
    }

    /// Turns the tree to the left: the right child becomes the root.
    pub fn rotate_l(self) -> (t: Tree)
        requires
            self.ok(),
            self.0.is_some(),
            self.0.unwrap().r.0.is_some(),
        ensures
            t.ok(),
            t.0.is_some(),
            t.keys() =~= self.keys(),
            t == join(
                self.0.unwrap().r.0.unwrap().idx,
                join(self.0.unwrap().idx, self.0.unwrap().l, self.0.unwrap().r.0.unwrap().l),
                self.0.unwrap().r.0.unwrap().r,
            ),
    {
        let a = *self.0.unwrap();
        let b = *a.r.0.unwrap();
        proof {
            reveal_with_fuel(Tree::ok, 2);
            reveal_with_fuel(Tree::keys, 2);
            reveal_with_fuel(Tree::tall, 2);
            b.l.lemma_keys();
            b.r.lemma_keys();
            a.l.lemma_keys();
            assert(a.r.keys().contains(b.idx as int));
            assert forall|k: int| b.l.keys().contains(k) implies a.idx + 1 <= k < usize::MAX by {
                assert(a.r.keys().contains(k));
            }
        }
        let left = Node::update(a.idx, a.l, b.l);
        Node::update(b.idx, left, b.r)
    }

    /// What `join` makes of the heights of its subtrees.
    pub proof fn lemma_join(idx: usize, l: Tree, r: Tree)
        ensures
            join(idx, l, r).tall() == 1 + vstd::math::max(l.tall() as int, r.tall() as int),
            join(idx, l, r).lean() == l.tall() - r.tall(),
            join(idx, l, r).balanced() == (l.balanced() && r.balanced() && -1 <= l.tall() - r.tall()
                <= 1),
            l.0.is_none() <==> l.tall() == 0,
            r.0.is_none() <==> r.tall() == 0,
    {
    }

    /// A tree whose nodes record their heights is the `join` of its root's
    /// parts.
    pub proof fn lemma_is_join(self)
        requires
            self.ok(),
            self.0.is_some(),
        ensures
            self == join(self.0.unwrap().idx, self.0.unwrap().l, self.0.unwrap().r),
            self.0.unwrap().l.ok(),
            self.0.unwrap().r.ok(),
    {
        let n = self.0.unwrap();
        Self::lemma_join(n.idx, n.l, n.r);
        assert(*n == Node {
            idx: n.idx,
            l: n.l,
            r: n.r,
            h: (1 + vstd::math::max(n.l.tall() as int, n.r.tall() as int)) as usize,
        });
    }

    /// Restores the balance at the root, where the subtrees' heights may
    /// differ by two, with one or two turns.
    pub fn rotate(self) -> (t: Tree)
        requires
            self.ok(),
            self.0.is_some(),
        ensures
            t.ok(),
            t.0.is_some(),
            t.keys() =~= self.keys(),
            -1 <= self.lean() <= 1 ==> t == self,
            self.nearly_balanced() ==> t.balanced() && self.tall() - 1 <= t.tall() <= self.tall(),
    {
        proof {
            self.lemma_is_join();
        }
        let root = *self.0.unwrap();
        let bf = root.bf();
        proof {
            Self::lemma_join(root.idx, root.l, root.r);
            root.l.lemma_keys();
            root.r.lemma_keys();
        }
        if bf > 1 {
            proof {
                root.l.lemma_is_join();
            }
            let left = *root.l.0.unwrap();
            proof {
                Self::lemma_join(left.idx, left.l, left.r);
            }
            if left.bf() >= 0 {
                let l = Tree(Some(Box::new(left)));
                let t = Node::update(root.idx, l, root.r).rotate_r();
                proof {
                    Self::lemma_join(root.idx, left.r, root.r);
                    Self::lemma_join(left.idx, left.l, join(root.idx, left.r, root.r));
                }
                t
            } else {
                proof {
                    left.r.lemma_is_join();
                }
                let ghost c = left.r.0.unwrap();
                let l = Tree(Some(Box::new(left))).rotate_l();
                let t = Node::update(root.idx, l, root.r).rotate_r();
                proof {
                    Self::lemma_join(c.idx, c.l, c.r);
                    Self::lemma_join(left.idx, left.l, c.l);
                    Self::lemma_join(root.idx, c.r, root.r);
                    Self::lemma_join(
                        c.idx,
                        join(left.idx, left.l, c.l),
                        join(root.idx, c.r, root.r),
                    );
                    reveal_with_fuel(Tree::balanced, 2);
                }
                t
            }
        } else if bf < -1 {
            proof {
                root.r.lemma_is_join();
            }
            let right = *root.r.0.unwrap();
            proof {
                Self::lemma_join(right.idx, right.l, right.r);
            }
            if right.bf() <= 0 {
                let r = Tree(Some(Box::new(right)));
                let t = Node::update(root.idx, root.l, r).rotate_l();
                proof {
                    Self::lemma_join(root.idx, root.l, right.l);
                    Self::lemma_join(right.idx, join(root.idx, root.l, right.l), right.r);
                }
                t
            } else {
                proof {
                    right.l.lemma_is_join();
                }
                let ghost c = right.l.0.unwrap();
                let r = Tree(Some(Box::new(right))).rotate_r();
                let t = Node::update(root.idx, root.l, r).rotate_l();
                proof {
                    Self::lemma_join(c.idx, c.l, c.r);
                    Self::lemma_join(right.idx, c.r, right.r);
                    Self::lemma_join(root.idx, root.l, c.l);
                    Self::lemma_join(
                        c.idx,
                        join(root.idx, root.l, c.l),
                        join(right.idx, c.r, right.r),
                    );
                    reveal_with_fuel(Tree::balanced, 2);
                }
                t
            }
        } else {
            Tree(Some(Box::new(root)))
        }
    }

    /// Adds an index that the tree does not hold.
    pub fn insert(self, idx: usize) -> (t: Tree)
        requires
            self.ok(),
            idx < usize::MAX,
            !self.keys().contains(idx as int),
        ensures
            t.ok(),
            t.0.is_some(),
            t.keys() =~= self.keys().insert(idx as int),
            self.balanced() ==> t.balanced() && self.tall() <= t.tall() <= self.tall() + 1,
        decreases self,
    {
        proof {
            reveal_with_fuel(Tree::tall, 2);
            reveal_with_fuel(Tree::balanced, 2);
        }
        match self.0 {
            None => Node::update(idx, Tree(None), Tree(None)),
            Some(b) => {
                let n = *b;
                if idx < n.idx {
                    let l = n.l.insert(idx);
                    Node::update(n.idx, l, n.r).rotate()
                } else {
                    let r = n.r.insert(idx);
                    Node::update(n.idx, n.l, r).rotate()
                }
            },
        }
    }

    /// Removes the smallest index and returns it.
    pub fn pop_min(self) -> (res: (Tree, usize))
        requires
            self.ok(),
            self.0.is_some(),
        ensures
            res.0.ok(),
            self.keys().contains(res.1 as int),
            res.0.keys() =~= self.keys().remove(res.1 as int),
            forall|k: int| self.keys().contains(k) ==> res.1 <= k,
            self.balanced() ==> res.0.balanced() && self.tall() - 1 <= res.0.tall() <= self.tall(),
        decreases self,
    {
        proof {
            reveal_with_fuel(Tree::ok, 2);
            reveal_with_fuel(Tree::keys, 2);
            reveal_with_fuel(Tree::tall, 2);
        }
        let n = *self.0.unwrap();
        if n.l.0.is_none() {
            proof {
                assert forall|k: int| self.keys().contains(k) implies n.idx <= k by {
                    if n.r.keys().contains(k) {
                    } else {
                        assert(!n.l.keys().contains(k));
                    }
                }
            }
            (n.r, n.idx)
        } else {
            let (l, least) = n.l.pop_min();
            proof {
                assert(n.l.keys().contains(least as int));
                assert forall|k: int| self.keys().contains(k) implies least <= k by {
                    if n.r.keys().contains(k) {
                    } else if n.l.keys().contains(k) {
                    }
                }
            }
            (Node::update(n.idx, l, n.r).rotate(), least)
        }
    }

    /// Removes the largest index and returns it.
    pub fn pop_max(self) -> (res: (Tree, usize))
        requires
            self.ok(),
            self.0.is_some(),
        ensures
            res.0.ok(),
            self.keys().contains(res.1 as int),
            res.0.keys() =~= self.keys().remove(res.1 as int),
            forall|k: int| self.keys().contains(k) ==> res.1 >= k,
            self.balanced() ==> res.0.balanced() && self.tall() - 1 <= res.0.tall() <= self.tall(),
        decreases self,
    {
        proof {
            reveal_with_fuel(Tree::ok, 2);
            reveal_with_fuel(Tree::keys, 2);
            reveal_with_fuel(Tree::tall, 2);
        }
        let n = *self.0.unwrap();
        if n.r.0.is_none() {
            proof {
                assert forall|k: int| self.keys().contains(k) implies n.idx >= k by {
                    if n.l.keys().contains(k) {
                    } else {
                        assert(!n.r.keys().contains(k));
                    }
                }
            }
            (n.l, n.idx)
        } else {
            let (r, most) = n.r.pop_max();
            proof {
                assert(n.r.keys().contains(most as int));
                assert forall|k: int| self.keys().contains(k) implies most >= k by {
                    if n.l.keys().contains(k) {
                    } else if n.r.keys().contains(k) {
                    }
                }
            }
            (Node::update(n.idx, n.l, r).rotate(), most)
        }
    }

    /// Removes `idx` if the tree holds it, and says whether it did. A node
    /// with two subtrees is replaced by its neighbour from the higher one:
    /// the next larger index if the right subtree is higher, else the next
    /// smaller one.
    #[verifier::rlimit(60)]
    pub fn remove(self, idx: usize) -> (res: (Tree, bool))
        requires
            self.ok(),
        ensures
            res.0.ok(),
            res.1 == self.keys().contains(idx as int),
            res.0.keys() =~= self.keys().remove(idx as int),
            self.balanced() ==> res.0.balanced() && self.tall() - 1 <= res.0.tall() <= self.tall(),
        decreases self,
    {
        match self.0 {
            None => (Tree(None), false),
            Some(b) => {
                let n = *b;
                proof {
                    reveal_with_fuel(Tree::ok, 2);
                    reveal_with_fuel(Tree::keys, 2);
                    reveal_with_fuel(Tree::tall, 2);
                    n.l.lemma_keys();
                    n.r.lemma_keys();
                }
                if idx < n.idx {
                    let (l, found) = n.l.remove(idx);
                    (Node::update(n.idx, l, n.r).rotate(), found)
                } else if idx > n.idx {
                    let (r, found) = n.r.remove(idx);
                    (Node::update(n.idx, n.l, r).rotate(), found)
                } else if n.l.0.is_none() {
                    (n.r, true)
                } else if n.r.0.is_none() {
                    (n.l, true)
                } else if n.l.height() < n.r.height() {
                    let (r, next) = n.r.pop_min();
                    (Node::update(next, n.l, r).rotate(), true)
                } else {
                    let (l, prev) = n.l.pop_max();
                    (Node::update(prev, l, n.r).rotate(), true)
                }
            },
        }
    }

    /// The leaf that is reached from the root by going down into the lower
    /// subtree each time, into the right one where both are as high.
    pub open spec fn nearest_leaf(self) -> Option<usize>
        decreases self,
    {
        match self.0 {
            None => None,
            Some(n) => if n.l.0.is_none() && n.r.0.is_none() {
                Some(n.idx)
            } else if n.r.0.is_none() || (n.l.0.is_some() && n.l.tall() < n.r.tall()) {
                n.l.nearest_leaf()
            } else {
                n.r.nearest_leaf()
            },
        }
    }

    /// Removes the nearest leaf and returns its index.
    pub fn delete(self) -> (res: (Tree, Option<usize>))
        requires
            self.ok(),
        ensures
            res.0.ok(),
            res.1 == self.nearest_leaf(),
            match res.1 {
                Some(idx) => self.keys().contains(idx as int) && res.0.keys() =~= self.keys().remove(
                    idx as int,
                ),
                None => self.0.is_none() && res.0.0.is_none(),
            },
            self.balanced() ==> res.0.balanced() && self.tall() - 1 <= res.0.tall() <= self.tall(),
        decreases self,
    {
        match self.0 {
            None => (Tree(None), None),
            Some(b) => {
                let n = *b;
                proof {
                    reveal_with_fuel(Tree::ok, 2);
                    reveal_with_fuel(Tree::keys, 2);
                    reveal_with_fuel(Tree::tall, 2);
                    n.l.lemma_keys();
                    n.r.lemma_keys();
                }
                let go_left = if n.l.0.is_some() && n.r.0.is_some() {
                    n.l.height() < n.r.height()
                } else {
                    n.l.0.is_some()
                };
                if n.l.0.is_none() && n.r.0.is_none() {
                    (Tree(None), Some(n.idx))
                } else if go_left {
                    let (l, leaf) = n.l.delete();
                    (Node::update(n.idx, l, n.r).rotate(), leaf)
                } else {
                    let (r, leaf) = n.r.delete();
                    (Node::update(n.idx, n.l, r).rotate(), leaf)
                }
            },
        }
    }
}

/// A row that keeps its free blocks in a height-balanced search tree.
pub struct AvlBuddy {
    tree: Tree,
    base: usize,
    order: usize,
}

impl AvlBuddy {
    /// The tree of block indices.
    pub closed spec fn tree(&self) -> Tree {
        self.tree
    }

    /// The index at the root of the tree.
    pub fn root(&self) -> (r: Option<usize>)
        ensures
            r == match self.tree().0 {
                Some(n) => Some(n.idx),
                None => None,
            },
    {
        match &self.tree.0 {
            Some(n) => Some(n.idx),
            None => None,
        }
    }

    /// The index at the left child of the root.
    pub fn root_left(&self) -> (r: Option<usize>)
        ensures
            r == match self.tree().0 {
                Some(n) => match n.l.0 {
                    Some(c) => Some(c.idx),
                    None => None,
                },
                None => None,
            },
    {
        match &self.tree.0 {
            Some(n) => match &n.l.0 {
                Some(c) => Some(c.idx),
                None => None,
            },
            None => None,
        }
    }

    /// The index at the right child of the root.
    pub fn root_right(&self) -> (r: Option<usize>)
        ensures
            r == match self.tree().0 {
                Some(n) => match n.r.0 {
                    Some(c) => Some(c.idx),
                    None => None,
                },
                None => None,
            },
    {
        match &self.tree.0 {
            Some(n) => match &n.r.0 {
                Some(c) => Some(c.idx),
                None => None,
            },
            None => None,
        }
    }
}

impl BuddyLine for AvlBuddy {
    open spec fn wf(&self) -> bool {
        self.tree().ok() && self.tree().balanced()
    }

    open spec fn members(&self) -> Set<int> {
        self.tree().keys()
    }

    closed spec fn order(&self) -> nat {
        self.order as nat
    }

    closed spec fn base(&self) -> int {
        self.base as int
    }

    open spec fn fits(order: nat, base: int, idx: int) -> bool {
        0 <= idx < usize::MAX
    }

    proof fn lemma_finite(&self) {
        self.tree().lemma_keys();
    }

    /// The tree is empty, and the order and the base index are 0 until
    /// `init` sets them.
    fn empty() -> (r: Self)
        ensures
            r.tree() == Tree(None),
            r.order() == 0,
            r.base() == 0,
    {
        AvlBuddy { tree: Tree(None), base: 0, order: 0 }
    }

    open spec fn meta_size() -> nat {
        (3 * (usize::BITS / 8)) as nat
    }

    fn intrusive_meta_size() -> (r: usize) {
        (3 * (usize::BITS / 8)) as usize
    }

    fn init(&mut self, order: usize, base: usize) {
        self.base = base;
        self.order = order;
    }

    fn holds(&self, first: usize, last: usize) -> (r: bool) {
        proof {
            if last >= usize::MAX {
                assert(!Self::fits(self.order(), self.base(), last as int));
            }
        }
        last < usize::MAX
    }

    fn entries(&self) -> (r: Vec<usize>) {
        let mut r: Vec<usize> = Vec::new();
        self.tree.collect(&mut r);
        proof {
            self.tree().lemma_inorder();
            assert(r@ == self.tree().inorder());
        }
        r
    }

    fn take(&mut self, idx: usize) -> (r: bool) {
        let t = Tree(self.tree.0.take());
        let (t, found) = t.remove(idx);
        self.tree = t;
        found
    }
}

impl BuddyCollection for AvlBuddy {
    open spec fn ordered(&self) -> bool {
        true
    }

    proof fn lemma_empty_ordered(&self) {
    }

    open spec fn lowest_first() -> bool {
        false
    }

    open spec fn aligns(align_order: nat) -> bool {
        align_order == 0
    }

    proof fn lemma_aligns_own() {
    }

    /// Declines every alignment but the row's own; else takes the leaf
    /// nearest to the root.
    fn take_any(&mut self, align_order: usize) -> (r: Option<usize>)
        ensures
            r == if align_order == 0 {
                old(self).tree().nearest_leaf()
            } else {
                None
            },
    {
        if align_order != 0 {
            None
        } else {
            let t = Tree(self.tree.0.take());
            let (t, leaf) = t.delete();
            self.tree = t;
            proof {
                vstd::arithmetic::power2::lemma2_to64();
            }
            leaf
        }
    }

    fn put(&mut self, idx: usize) -> (r: Option<usize>) {
        let t = Tree(self.tree.0.take());
        let (t, paired) = t.remove(buddy_index(idx));
        if paired {
            self.tree = t;
            Some(parent_index(idx))
        } else {
            self.tree = t.insert(idx);
            None
        }
    }
}

} // verus!
