//! An AVL tree set: a binary search tree in which the heights of the two
//! subtrees of every node differ by at most one. Every node caches the
//! height of its subtree.
use vstd::prelude::*;
use vstd::std_specs::cmp::OrdSpec;
use std::cmp::Ordering;
use crate::order::{key_order, key_lt, lemma_key_order};

verus! {

/// A node: a key, the subtrees it owns, and the height of its subtree.
pub struct Node<T> {
    pub key: T,
    pub left: Option<Box<Node<T>>>,
    pub right: Option<Box<Node<T>>>,
    pub height: i32,
}

/// A set of `T` kept as an AVL tree.
pub struct AVLTree<T> {
    root: Option<Box<Node<T>>>,
}

/// The keys held by a subtree.
pub open spec fn keys<T>(t: Option<Box<Node<T>>>) -> Set<T>
    decreases t,
{
    match t {
        None => Set::empty(),
        Some(n) => keys(n.left).union(keys(n.right)).insert(n.key),
    }
}

/// The number of nodes on the longest path down from the top.
pub open spec fn height<T>(t: Option<Box<Node<T>>>) -> nat
    decreases t,
{
    match t {
        None => 0,
        Some(n) => 1 + if height(n.left) >= height(n.right) { height(n.left) } else { height(n.right) },
    }
}

/// Every node's cached height is the height of its subtree.
pub open spec fn heights_cached<T>(t: Option<Box<Node<T>>>) -> bool
    decreases t,
{
    match t {
        None => true,
        Some(n) => {
            &&& heights_cached(n.left)
            &&& heights_cached(n.right)
            &&& n.height as int == height(t)
        },
    }
}

/// At every node the heights of the two subtrees differ by at most one.
pub open spec fn height_balanced<T>(t: Option<Box<Node<T>>>) -> bool
    decreases t,
{
    match t {
        None => true,
        Some(n) => {
            &&& height_balanced(n.left)
            &&& height_balanced(n.right)
            &&& -1 <= height(n.left) - height(n.right) <= 1
        },
    }
}

/// Every key of a left subtree is below the key of its node, every key of a
/// right subtree above it.
pub open spec fn sorted<T: Ord>(t: Option<Box<Node<T>>>) -> bool
    decreases t,
{
    match t {
        None => true,
        Some(n) => {
            &&& sorted(n.left)
            &&& sorted(n.right)
            &&& forall|k: T| #[trigger] keys(n.left).contains(k) ==> key_lt(k, n.key)
            &&& forall|k: T| #[trigger] keys(n.right).contains(k) ==> key_lt(n.key, k)
        },
    }
}

/// The keys of a subtree from left to right.
pub open spec fn in_order<T>(t: Option<Box<Node<T>>>) -> Seq<T>
    decreases t,
{
    match t {
        None => Seq::empty(),
        Some(n) => in_order(n.left) + seq![n.key] + in_order(n.right),
    }
}

/// What a valid subtree satisfies.
pub open spec fn avl<T: Ord>(t: Option<Box<Node<T>>>) -> bool {
    sorted(t) && heights_cached(t) && height_balanced(t)
}

/// A sorted subtree holds finitely many keys, at least as many as its
/// height.
proof fn lemma_height_le_len<T: Ord>(t: Option<Box<Node<T>>>)
    requires
        key_order::<T>(),
        sorted(t),
    ensures
        keys(t).finite(),
        height(t) <= keys(t).len(),
    decreases t,
{
    match t {
        None => {},
        Some(n) => {
            lemma_key_order::<T>();
            lemma_height_le_len(n.left);
            lemma_height_le_len(n.right);
            let u = keys(n.left).union(keys(n.right));
            vstd::set_lib::lemma_len_subset(keys(n.left), u);
            vstd::set_lib::lemma_len_subset(keys(n.right), u);
            if u.contains(n.key) {
                if keys(n.left).contains(n.key) {
                    assert(key_lt(n.key, n.key));
                } else {
                    assert(key_lt(n.key, n.key));
                }
            }
        },
    }
}

/// A key below the top of a sorted subtree is not in its right half, a key
/// above it not in its left half.
proof fn lemma_sorted_sides<T: Ord>(t: Option<Box<Node<T>>>, key: T)
    requires
        key_order::<T>(),
        sorted(t),
        t is Some,
    ensures
        key_lt(key, t->0.key) ==> !keys(t->0.right).contains(key),
        key_lt(t->0.key, key) ==> !keys(t->0.left).contains(key),
{
    lemma_key_order::<T>();
    let n = t->0;
    if key_lt(key, n.key) && keys(n.right).contains(key) {
        assert(key_lt(n.key, key));
        assert(key_lt(n.key, n.key));
    }
    if key_lt(n.key, key) && keys(n.left).contains(key) {
        assert(key_lt(key, n.key));
        assert(key_lt(n.key, n.key));
    }
}

impl<T> Node<T> {
    /// A subtree of one node.
    pub fn new(key: T) -> (r: Option<Box<Node<T>>>)
        ensures
            r == Some(Box::new(Node { key, left: None, right: None, height: 1 })),
    {
        Some(Box::new(Node { key, left: None, right: None, height: 1 }))
    }
}

impl<T> View for AVLTree<T> {
    type V = Set<T>;

    closed spec fn view(&self) -> Set<T> {
        keys(self.root)
    }
}

impl<T: Ord> AVLTree<T> {
    /// A node over `left` and `right`, with its height computed from theirs.
    fn join(key: T, left: Option<Box<Node<T>>>, right: Option<Box<Node<T>>>) -> (r: Box<Node<T>>)
        requires
            heights_cached(left),
            heights_cached(right),
            height(left) < i32::MAX,
            height(right) < i32::MAX,
        ensures
            r.key == key,
            r.left == left,
            r.right == right,
            heights_cached(Some(r)),
    {
        let lh = Self::tree_height(&left);
        let rh = Self::tree_height(&right);
        let h = if lh >= rh { lh + 1 } else { rh + 1 };
        Box::new(Node { key, left, right, height: h })
    }

    /// Rotates left at `n`: its right child rises to the top.
    fn rotate_left(n: Box<Node<T>>) -> (r: Box<Node<T>>)
        requires
            key_order::<T>(),
            n.right is Some,
            heights_cached(n.left),
            heights_cached(n.right),
            height(Some(n)) < i32::MAX,
        ensures
            r.key == n.right->0.key,
            r.right == n.right->0.right,
            r.left is Some,
            r.left->0.key == n.key,
            r.left->0.left == n.left,
            r.left->0.right == n.right->0.left,
            heights_cached(Some(r)),
            keys(Some(r)) == keys(Some(n)),
            sorted(Some(n)) ==> sorted(Some(r)),
    {
        let ghost n0 = *n;
        let Node { key, left, right, height: _ } = *n;
        let y = right.unwrap();
        let ghost y0 = *y;
        proof {
            assert(heights_cached(y0.left) && heights_cached(y0.right));
        }
        let Node { key: yk, left: yl, right: yr, height: _ } = *y;
        let x = Self::join(key, left, yl);
        let r = Self::join(yk, Some(x), yr);
        proof {
            lemma_key_order::<T>();
            assert(keys(r.left) == keys(n0.left).union(keys(y0.left)).insert(n0.key));
            assert(keys(n0.right) == keys(y0.left).union(keys(y0.right)).insert(yk));
            assert(keys(Some(r)) =~= keys(Some(Box::new(n0))));
            if sorted(Some(Box::new(n0))) {
                assert(keys(n0.right).contains(yk));
                assert(sorted(n0.right));
                assert forall|k: T| #[trigger] keys(r.left).contains(k) implies key_lt(k, yk) by {
                    if keys(n0.left).contains(k) {
                        assert(key_lt(k, n0.key));
                    }
                }
                assert forall|k: T| #[trigger] keys(x.right).contains(k) implies key_lt(x.key, k) by {
                    assert(keys(n0.right).contains(k));
                }
                assert(sorted(Some(x)));
            }
        }
        r
    }

    /// Rotates right at `n`: its left child rises to the top.
    fn rotate_right(n: Box<Node<T>>) -> (r: Box<Node<T>>)
        requires
            key_order::<T>(),
            n.left is Some,
            heights_cached(n.left),
            heights_cached(n.right),
            height(Some(n)) < i32::MAX,
        ensures
            r.key == n.left->0.key,
            r.left == n.left->0.left,
            r.right is Some,
            r.right->0.key == n.key,
            r.right->0.right == n.right,
            r.right->0.left == n.left->0.right,
            heights_cached(Some(r)),
            keys(Some(r)) == keys(Some(n)),
            sorted(Some(n)) ==> sorted(Some(r)),
    {
        let ghost n0 = *n;
        let Node { key, left, right, height: _ } = *n;
        let y = left.unwrap();
        let ghost y0 = *y;
        proof {
            assert(heights_cached(y0.left) && heights_cached(y0.right));
        }
        let Node { key: yk, left: yl, right: yr, height: _ } = *y;
        let x = Self::join(key, yr, right);
        let r = Self::join(yk, yl, Some(x));
        proof {
            lemma_key_order::<T>();
            assert(keys(r.right) == keys(y0.right).union(keys(n0.right)).insert(n0.key));
            assert(keys(n0.left) == keys(y0.left).union(keys(y0.right)).insert(yk));
            assert(keys(Some(r)) =~= keys(Some(Box::new(n0))));
            if sorted(Some(Box::new(n0))) {
                assert(keys(n0.left).contains(yk));
                assert(sorted(n0.left));
                assert forall|k: T| #[trigger] keys(r.right).contains(k) implies key_lt(yk, k) by {
                    if keys(n0.right).contains(k) {
                        assert(key_lt(n0.key, k));
                    }
                }
                assert forall|k: T| #[trigger] keys(x.left).contains(k) implies key_lt(k, x.key) by {
                    assert(keys(n0.left).contains(k));
                }
                assert(sorted(Some(x)));
            }
        }
        r
    }

    /// Restores the height balance at `n`, whose subtrees are valid and
    /// differ in height by at most two. A subtree two levels taller is
    /// brought up by one rotation, or by two when its taller half is the
    /// inner one.
    fn balance(n: Box<Node<T>>) -> (r: Box<Node<T>>)
        requires
            key_order::<T>(),
            sorted(Some(n)),
            heights_cached(n.left),
            heights_cached(n.right),
            height_balanced(n.left),
            height_balanced(n.right),
            -2 <= height(n.left) - height(n.right) <= 2,
            height(Some(n)) < i32::MAX,
        ensures
            avl(Some(r)),
            keys(Some(r)) == keys(Some(n)),
            height(Some(r)) == height(Some(n)) || height(Some(r)) + 1 == height(Some(n)),
            -1 <= height(n.left) - height(n.right) <= 1 ==> height(Some(r)) == height(Some(n)),
    {
        let ghost n0 = *n;
        let lh = Self::tree_height(&n.left);
        let rh = Self::tree_height(&n.right);
        if lh - rh >= -1 && lh - rh <= 1 {
            let Node { key, left, right, height: _ } = *n;
            let r = Self::join(key, left, right);
            proof {
                assert(keys(Some(r)) == keys(Some(Box::new(n0))));
            }
            return r;
        }
        let mut n = n;
        if lh - rh == 2 {
            let y = n.left.take().unwrap();
            let ghost y0 = *y;
            proof {
                assert(heights_cached(y0.left) && heights_cached(y0.right));
                assert(height_balanced(y0.left) && height_balanced(y0.right));
            }
            let ylh = Self::tree_height(&y.left);
            let yrh = Self::tree_height(&y.right);
            if ylh < yrh {
                let ghost z0 = *y0.right->0;
                proof {
                    assert(heights_cached(z0.left) && heights_cached(z0.right));
                    assert(height_balanced(z0.left) && height_balanced(z0.right));
                }
                let y2 = Self::rotate_left(y);
                proof {
                    assert(height(y0.right) == 1 + if height(z0.left) >= height(z0.right) { height(z0.left) } else { height(z0.right) });
                    assert(height(y2.left) == 1 + if height(y0.left) >= height(z0.left) { height(y0.left) } else { height(z0.left) });
                    assert(height(Some(y2)) <= height(Some(y)));
                }
                n.left = Some(y2);
            } else {
                n.left = Some(y);
            }
            proof {
                assert(keys(n.left) == keys(n0.left));
                assert(sorted(Some(n)));
            }
            let r = Self::rotate_right(n);
            proof {
                assert(height_balanced(r.right));
                assert(height_balanced(r.left));
            }
            r
        } else {
            let y = n.right.take().unwrap();
            let ghost y0 = *y;
            proof {
                assert(heights_cached(y0.left) && heights_cached(y0.right));
                assert(height_balanced(y0.left) && height_balanced(y0.right));
            }
            let ylh = Self::tree_height(&y.left);
            let yrh = Self::tree_height(&y.right);
            if ylh > yrh {
                let ghost z0 = *y0.left->0;
                proof {
                    assert(heights_cached(z0.left) && heights_cached(z0.right));
                    assert(height_balanced(z0.left) && height_balanced(z0.right));
                }
                let y2 = Self::rotate_right(y);
                proof {
                    assert(height(y0.left) == 1 + if height(z0.left) >= height(z0.right) { height(z0.left) } else { height(z0.right) });
                    assert(height(y2.right) == 1 + if height(z0.right) >= height(y0.right) { height(z0.right) } else { height(y0.right) });
                    assert(height(Some(y2)) <= height(Some(y)));
                }
                n.right = Some(y2);
            } else {
                n.right = Some(y);
            }
            proof {
                assert(keys(n.right) == keys(n0.right));
                assert(sorted(Some(n)));
            }
            let r = Self::rotate_left(n);
            proof {
                assert(height_balanced(r.right));
                assert(height_balanced(r.left));
            }
            r
        }
    }

    /// Inserts `key` into the subtree `t` and rebalances on the way back up.
    /// A key that is already there leaves the subtree as it was.
    fn add_inner(t: Option<Box<Node<T>>>, key: T) -> (r: Option<Box<Node<T>>>)
        requires
            key_order::<T>(),
            avl(t),
            height(t) + 1 < i32::MAX,
        ensures
            r is Some,
            avl(r),
            keys(r) == keys(t).insert(key),
            height(r) == height(t) || height(r) == height(t) + 1,
        decreases t,
    {
        proof {
            lemma_key_order::<T>();
        }
        match t {
            None => {
                let r = Node::new(key);
                proof {
                    assert(keys(r) =~= keys(t).insert(key));
                }
                r
            },
            Some(n) => {
                let ghost n0 = *n;
                let mut n = n;
                proof {
                    lemma_sorted_sides(t, key);
                    assert(sorted(n0.left) && sorted(n0.right));
                    assert(heights_cached(n0.left) && heights_cached(n0.right));
                    assert(height_balanced(n0.left) && height_balanced(n0.right));
                }
                match key.cmp(&n.key) {
                    Ordering::Less => {
                        n.left = Self::add_inner(n.left.take(), key);
                        proof {
                            assert forall|k: T| #[trigger] keys(n.left).contains(k) implies key_lt(k, n.key) by {
                                if k != key {
                                    assert(keys(n0.left).contains(k));
                                }
                            }
                            assert(sorted(Some(n)));
                            assert(keys(Some(n)) =~= keys(t).insert(key));
                        }
                        Some(Self::balance(n))
                    },
                    Ordering::Greater => {
                        n.right = Self::add_inner(n.right.take(), key);
                        proof {
                            assert forall|k: T| #[trigger] keys(n.right).contains(k) implies key_lt(n.key, k) by {
                                if k != key {
                                    assert(keys(n0.right).contains(k));
                                }
                            }
                            assert(sorted(Some(n)));
                            assert(keys(Some(n)) =~= keys(t).insert(key));
                        }
                        Some(Self::balance(n))
                    },
                    Ordering::Equal => {
                        proof {
                            assert(keys(t) =~= keys(t).insert(key));
                        }
                        Some(n)
                    },
                }
            },
        }
    }

    /// Adds `key` to the set; a key already there changes nothing. The set
    /// must stay small enough for every height to fit the `i32` that caches
    /// it.
    pub fn add(&mut self, key: T)
        requires
            old(self).wf(),
            key_order::<T>(),
            old(self)@.len() + 2 < i32::MAX,
        ensures
            final(self).wf(),
            final(self)@ == old(self)@.insert(key),
    {
        proof {
            lemma_height_le_len(self.root);
        }
        self.root = Self::add_inner(self.root.take(), key)
    }

    /// The node of the subtree `t` that holds `key`.
    fn find(t: &Option<Box<Node<T>>>, key: T) -> (r: Option<&Node<T>>)
        requires
            key_order::<T>(),
            sorted(*t),
        ensures
            r is Some == keys(*t).contains(key),
            r is Some ==> r->0.key == key,
        decreases *t,
    {
        proof {
            lemma_key_order::<T>();
        }
        match t {
            None => None,
            Some(n) => {
                proof {
                    lemma_sorted_sides(*t, key);
                }
                match key.cmp(&n.key) {
                    Ordering::Less => Self::find(&n.left, key),
                    Ordering::Greater => Self::find(&n.right, key),
                    Ordering::Equal => Some(&**n),
                }
            },
        }
    }

    /// Whether `key` is in the set.
    pub fn contains(&self, key: T) -> (r: bool)
        requires
            self.wf(),
            key_order::<T>(),
        ensures
            r == self@.contains(key),
    {
        Self::find(&self.root, key).is_some()
    }

    /// Whether every cached height in `t` is one more than the larger of
    /// its children's, and the children's cached heights differ by at most
    /// one.
    fn link_is_balanced(t: &Option<Box<Node<T>>>) -> (r: bool)
        ensures
            r == (heights_cached(*t) && height_balanced(*t)),
        decreases *t,
    {
        match t {
            None => true,
            Some(n) => {
                let l_ok = Self::link_is_balanced(&n.left);
                let r_ok = Self::link_is_balanced(&n.right);
                if !l_ok || !r_ok {
                    return false;
                }
                let lh = Self::tree_height(&n.left) as i64;
                let rh = Self::tree_height(&n.right) as i64;
                let top = if lh >= rh { lh + 1 } else { rh + 1 };
                n.height as i64 == top && lh - rh <= 1 && lh - rh >= -1
            },
        }
    }

    /// Whether the cached heights are right and the tree is height-balanced.
    pub fn is_balanced(&self) -> (r: bool)
        ensures
            r == self.has_balanced_heights(),
    {
        Self::link_is_balanced(&self.root)
    }

    /// Every cached height is right, and at every node the heights of the
    /// two subtrees differ by at most one.
    pub closed spec fn has_balanced_heights(&self) -> bool {
        heights_cached(self.root) && height_balanced(self.root)
    }

    /// Pushes the keys of `t` onto `out`, from left to right.
    fn collect_in_order<'a>(t: &'a Option<Box<Node<T>>>, out: &mut Vec<&'a T>)
        ensures
            final(out)@.map_values(|k: &T| *k) == old(out)@.map_values(|k: &T| *k) + in_order(*t),
        decreases *t,
    {
        match t {
            None => {
                proof {
                    assert(out@.map_values(|k: &T| *k) =~= out@.map_values(|k: &T| *k) + in_order(*t));
                }
            },
            Some(n) => {
                Self::collect_in_order(&n.left, out);
                let ghost s1 = out@.map_values(|k: &T| *k);
                out.push(&n.key);
                proof {
                    assert(out@.map_values(|k: &T| *k) =~= s1.push(n.key));
                }
                Self::collect_in_order(&n.right, out);
                proof {
                    assert(out@.map_values(|k: &T| *k) =~= old(out)@.map_values(|k: &T| *k) + in_order(*t));
                }
            },
        }
    }

    /// The keys from smallest to largest.
    pub fn traverse(&self) -> (r: Vec<&T>)
        requires
            self.wf(),
        ensures
            r@.map_values(|k: &T| *k) == self.keys_in_order(),
    {
        let mut out: Vec<&T> = Vec::new();
        proof {
            assert(out@.map_values(|k: &T| *k) =~= Seq::<T>::empty());
        }
        Self::collect_in_order(&self.root, &mut out);
        proof {
            assert(out@.map_values(|k: &T| *k) =~= self.keys_in_order());
        }
        out
    }

    /// The keys in the order the tree holds them.
    pub closed spec fn keys_in_order(&self) -> Seq<T> {
        in_order(self.root)
    }

    /// The invariant that every operation keeps.
    pub closed spec fn wf(&self) -> bool {
        avl(self.root)
    }

    /// Makes a new, empty tree.
    pub fn new() -> (r: Self)
        ensures
            r.wf(),
            r@ == Set::<T>::empty(),
    {
        AVLTree { root: None }
    }

    /// The cached height of a subtree.
    fn tree_height(t: &Option<Box<Node<T>>>) -> (r: i32)
        requires
            heights_cached(*t),
        ensures
            r as int == height(*t),
    {
        match t {
            None => 0,
            Some(n) => n.height,
        }
    }
}

} // verus!
