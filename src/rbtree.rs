//! A red-black tree map.
//!
//! Nodes own their children; there are no parent links. The rebalancing
//! passes that a pointer-based tree runs upward from the changed node run
//! here as each recursive call returns to the parent, which sees the same
//! grandparent, parent, uncle and sibling that the upward walk would.
use vstd::prelude::*;
use vstd::std_specs::cmp::OrdSpec;
use std::cmp::Ordering;
use crate::order::{key_order, key_lt, lemma_key_order};

verus! {

/// An in-order walk over the entries of an `RBTreeMap`. The stack holds the
/// nodes whose entries are still to come, each with its right subtree; the
/// top of the stack comes first.
pub struct Iter<'a, K, V> {
    stack: Vec<&'a Node<K, V>>,
}

/// The color of a node.
#[derive(PartialEq, Eq, Structural, Clone, Copy, Debug)]
pub enum Color {
    Red,
    Black,
}

/// A node of the tree: an entry, its color, and the subtrees it owns.
pub struct Node<K, V> {
    pub key: K,
    pub value: V,
    pub color: Color,
    pub left: Option<Box<Node<K, V>>>,
    pub right: Option<Box<Node<K, V>>>,
}

/// An ordered map from `K` to `V`.
pub struct RBTreeMap<K, V> {
    size: usize,
    root: Option<Box<Node<K, V>>>,
}

/// The entries held by a subtree.
pub open spec fn link_map<K, V>(t: Option<Box<Node<K, V>>>) -> Map<K, V>
    decreases t,
{
    match t {
        None => Map::empty(),
        Some(n) => link_map(n.left).union_prefer_right(link_map(n.right)).insert(n.key, n.value),
    }
}

/// The number of nodes of a subtree.
pub open spec fn node_count<K, V>(t: Option<Box<Node<K, V>>>) -> nat
    decreases t,
{
    match t {
        None => 0,
        Some(n) => 1 + node_count(n.left) + node_count(n.right),
    }
}

/// The number of nodes in the subtrees on a stack.
pub open spec fn stack_count<K, V>(s: Seq<Box<Node<K, V>>>) -> nat
    decreases s.len(),
{
    if s.len() == 0 {
        0
    } else {
        node_count(Some(s.last())) + stack_count(s.drop_last())
    }
}

/// The entries of a subtree in key order.
pub open spec fn in_order<K, V>(t: Option<Box<Node<K, V>>>) -> Seq<(K, V)>
    decreases t,
{
    match t {
        None => Seq::empty(),
        Some(n) => in_order(n.left) + seq![(n.key, n.value)] + in_order(n.right),
    }
}

/// What a walk whose stack is `s` has still to yield: for each node from
/// the top down, its own entry and then those of its right subtree.
pub open spec fn stack_entries<K, V>(s: Seq<&Node<K, V>>) -> Seq<(K, V)>
    decreases s.len(),
{
    if s.len() == 0 {
        Seq::empty()
    } else {
        let n = s.last();
        seq![(n.key, n.value)] + in_order(n.right) + stack_entries(s.drop_last())
    }
}

/// Every key of the left subtree of a node is smaller than its key, and
/// every key of the right subtree is greater.
pub open spec fn ordered<K: Ord, V>(t: Option<Box<Node<K, V>>>) -> bool
    decreases t,
{
    match t {
        None => true,
        Some(n) => {
            &&& ordered(n.left)
            &&& ordered(n.right)
            &&& forall|k: K| #[trigger] link_map(n.left).contains_key(k) ==> key_lt(k, n.key)
            &&& forall|k: K| #[trigger] link_map(n.right).contains_key(k) ==> key_lt(n.key, k)
        },
    }
}

/// The subtree has a red root.
pub open spec fn is_red<K, V>(t: Option<Box<Node<K, V>>>) -> bool {
    t is Some && t->0.color == Color::Red
}

/// The number of black nodes on the leftmost path below the subtree's top,
/// the top included.
pub open spec fn black_height<K, V>(t: Option<Box<Node<K, V>>>) -> nat
    decreases t,
{
    match t {
        None => 0,
        Some(n) => black_height(n.left) + if n.color == Color::Black { 1nat } else { 0nat },
    }
}

/// Every path from a node down to an absent child meets as many black nodes.
pub open spec fn black_balanced<K, V>(t: Option<Box<Node<K, V>>>) -> bool
    decreases t,
{
    match t {
        None => true,
        Some(n) => {
            &&& black_balanced(n.left)
            &&& black_balanced(n.right)
            &&& black_height(n.left) == black_height(n.right)
        },
    }
}

/// No red node has a red child.
pub open spec fn no_red_red<K, V>(t: Option<Box<Node<K, V>>>) -> bool
    decreases t,
{
    match t {
        None => true,
        Some(n) => {
            &&& no_red_red(n.left)
            &&& no_red_red(n.right)
            &&& n.color == Color::Red ==> !is_red(n.left) && !is_red(n.right)
        },
    }
}

impl<K, V> Node<K, V> {
    /// A node with no children.
    pub fn new(key: K, value: V, color: Color) -> (r: Box<Node<K, V>>)
        ensures
            *r == (Node { key, value, color, left: None, right: None }),
    {
        Box::new(Node { key, value, color, left: None, right: None })
    }
}

impl<'a, K, V> View for Iter<'a, K, V> {
    type V = Seq<(K, V)>;

    closed spec fn view(&self) -> Seq<(K, V)> {
        stack_entries(self.stack@)
    }
}

impl<'a, K, V> Iter<'a, K, V> {
    /// Pushes `t` and the left spine below it.
    fn push_left_spine(&mut self, t: &'a Option<Box<Node<K, V>>>)
        ensures
            final(self)@ == in_order(*t) + old(self)@,
    {
        let mut cur = t;
        loop
            invariant
                in_order(*cur) + self@ == in_order(*t) + old(self)@,
            decreases *cur,
        {
            match cur {
                None => {
                    proof {
                        assert(in_order(*cur) + self@ =~= self@);
                    }
                    return;
                },
                Some(n) => {
                    let ghost s0 = self.stack@;
                    self.stack.push(&**n);
                    proof {
                        assert(self.stack@.drop_last() =~= s0);
                        assert(in_order(n.left) + self@ =~= in_order(*cur) + stack_entries(s0));
                    }
                    cur = &n.left;
                },
            }
        }
    }

    /// The next entry in key order, if any is left.
    pub fn next(&mut self) -> (r: Option<(&'a K, &'a V)>)
        ensures
            old(self)@.len() == 0 ==> r is None && final(self)@ == old(self)@,
            old(self)@.len() > 0 ==> final(self)@ == old(self)@.drop_first() && match r {
                Some(e) => (*e.0, *e.1) == old(self)@[0],
                None => false,
            },
    {
        match self.stack.pop() {
            None => {
                proof {
                    assert(old(self).stack@.len() == 0);
                }
                None
            },
            Some(n) => {
                let ghost rest = self@;
                proof {
                    assert(old(self).stack@.drop_last() =~= self.stack@);
                    assert(old(self)@ =~= seq![(n.key, n.value)] + (in_order(n.right) + rest));
                }
                self.push_left_spine(&n.right);
                proof {
                    assert(self@ =~= old(self)@.drop_first());
                }
                Some((&n.key, &n.value))
            },
        }
    }
}

impl<K, V> View for RBTreeMap<K, V> {
    type V = Map<K, V>;

    closed spec fn view(&self) -> Map<K, V> {
        link_map(self.root)
    }
}

impl<K: Ord, V> RBTreeMap<K, V> {
    /// Binary-search-tree order on the keys.
    pub closed spec fn is_search_tree(&self) -> bool {
        ordered(self.root)
    }

    /// No red node has a red child.
    pub closed spec fn has_no_red_red(&self) -> bool {
        no_red_red(self.root)
    }

    /// All root-to-leaf paths hold the same number of black nodes.
    pub closed spec fn is_black_balanced(&self) -> bool {
        black_balanced(self.root)
    }

    /// The root, if there is one, is black.
    pub closed spec fn root_is_black(&self) -> bool {
        !is_red(self.root)
    }

    /// The entries in the order the tree holds them.
    pub closed spec fn entries(&self) -> Seq<(K, V)> {
        in_order(self.root)
    }

    /// The invariant that every operation keeps.
    pub closed spec fn wf(&self) -> bool {
        &&& self.is_search_tree()
        &&& self.has_no_red_red()
        &&& self.is_black_balanced()
        &&& self.root_is_black()
        &&& self@.dom().finite()
        &&& self.size == self@.len()
    }
}

/// A key below every key of an ordered subtree is in neither of its halves.
proof fn lemma_ordered_sides<K: Ord, V>(t: Option<Box<Node<K, V>>>, key: K)
    requires
        key_order::<K>(),
        ordered(t),
        t is Some,
    ensures
        key_lt(key, t->0.key) ==> !link_map(t->0.right).contains_key(key),
        key_lt(t->0.key, key) ==> !link_map(t->0.left).contains_key(key),
{
    lemma_key_order::<K>();
    let n = t->0;
    if key_lt(key, n.key) && link_map(n.right).contains_key(key) {
        assert(key_lt(n.key, key));
        assert(key_lt(n.key, n.key));
        assert(n.key.cmp_spec(&n.key) == Ordering::Equal);
    }
    if key_lt(n.key, key) && link_map(n.left).contains_key(key) {
        assert(key_lt(key, n.key));
        assert(key_lt(n.key, n.key));
        assert(n.key.cmp_spec(&n.key) == Ordering::Equal);
    }
}

/// Rotation to the left at `n`, as a value: the right child rises to the
/// top and takes the top's color; the old top becomes its left child and
/// takes the child's color.
pub open spec fn rotated_left<K, V>(n: Node<K, V>) -> Node<K, V>
    recommends
        n.right is Some,
{
    let y = n.right->0;
    Node {
        key: y.key,
        value: y.value,
        color: n.color,
        left: Some(Box::new(Node { key: n.key, value: n.value, color: y.color, left: n.left, right: y.left })),
        right: y.right,
    }
}

/// Rotation to the right at `n`, the mirror image of `rotated_left`.
pub open spec fn rotated_right<K, V>(n: Node<K, V>) -> Node<K, V>
    recommends
        n.left is Some,
{
    let y = n.left->0;
    Node {
        key: y.key,
        value: y.value,
        color: n.color,
        left: y.left,
        right: Some(Box::new(Node { key: n.key, value: n.value, color: y.color, left: y.right, right: n.right })),
    }
}

/// A rotation keeps the order of the keys and the entries.
proof fn lemma_rotate_left<K: Ord, V>(n: Node<K, V>)
    requires
        key_order::<K>(),
        n.right is Some,
        ordered(Some(Box::new(n))),
    ensures
        ordered(Some(Box::new(rotated_left(n)))),
        link_map(Some(Box::new(rotated_left(n)))) == link_map(Some(Box::new(n))),
{
    lemma_key_order::<K>();
    let y = n.right->0;
    let r = rotated_left(n);
    let x2 = r.left->0;
    assert(ordered(n.right));
    assert(link_map(n.right).contains_key(y.key));
    assert(key_lt(n.key, y.key));
    assert forall|k: K| #[trigger] link_map(x2.right).contains_key(k) implies key_lt(x2.key, k) && key_lt(k, y.key) by {
        assert(link_map(n.right).contains_key(k));
    }
    assert(link_map(r.left) == link_map(x2.left).union_prefer_right(link_map(x2.right)).insert(x2.key, x2.value));
    assert(link_map(n.right) == link_map(y.left).union_prefer_right(link_map(y.right)).insert(y.key, y.value));
    assert forall|k: K| #[trigger] link_map(r.left).contains_key(k) implies key_lt(k, r.key) by {
        if link_map(x2.left).contains_key(k) {
            assert(key_lt(k, n.key));
        } else if link_map(x2.right).contains_key(k) {
        }
    }
    assert forall|k: K| #[trigger] link_map(r.right).contains_key(k) implies key_lt(r.key, k) by {
    }
    assert(ordered(r.left));
    assert(link_map(Some(Box::new(r))) =~= link_map(Some(Box::new(n)))) by {
        assert forall|k: K| #[trigger] link_map(y.right).contains_key(k) implies key_lt(n.key, k) by {
            assert(link_map(n.right).contains_key(k));
        }
    }
}

/// The mirror image of `lemma_rotate_left`.
proof fn lemma_rotate_right<K: Ord, V>(n: Node<K, V>)
    requires
        key_order::<K>(),
        n.left is Some,
        ordered(Some(Box::new(n))),
    ensures
        ordered(Some(Box::new(rotated_right(n)))),
        link_map(Some(Box::new(rotated_right(n)))) == link_map(Some(Box::new(n))),
{
    lemma_key_order::<K>();
    let y = n.left->0;
    let r = rotated_right(n);
    let x2 = r.right->0;
    assert(ordered(n.left));
    assert(link_map(n.left).contains_key(y.key));
    assert(key_lt(y.key, n.key));
    assert forall|k: K| #[trigger] link_map(x2.left).contains_key(k) implies key_lt(k, x2.key) && key_lt(y.key, k) by {
        assert(link_map(n.left).contains_key(k));
    }
    assert(link_map(r.right) == link_map(x2.left).union_prefer_right(link_map(x2.right)).insert(x2.key, x2.value));
    assert(link_map(n.left) == link_map(y.left).union_prefer_right(link_map(y.right)).insert(y.key, y.value));
    assert forall|k: K| #[trigger] link_map(r.right).contains_key(k) implies key_lt(r.key, k) by {
        if link_map(x2.right).contains_key(k) {
            assert(key_lt(n.key, k));
        } else if link_map(x2.left).contains_key(k) {
        }
    }
    assert forall|k: K| #[trigger] link_map(r.left).contains_key(k) implies key_lt(k, r.key) by {
    }
    assert(ordered(r.right));
    assert(link_map(Some(Box::new(r))) =~= link_map(Some(Box::new(n)))) by {
        assert forall|k: K| #[trigger] link_map(y.left).contains_key(k) implies key_lt(k, n.key) by {
            assert(link_map(n.left).contains_key(k));
        }
    }
}

/// Rotates left at `n`, swapping the colors of the two nodes that move.
fn rotate_left<K, V>(n: Box<Node<K, V>>) -> (r: Box<Node<K, V>>)
    requires
        n.right is Some,
    ensures
        *r == rotated_left(*n),
{
    let mut n = n;
    let mut y = n.right.take().unwrap();
    n.right = y.left.take();
    let c = n.color;
    n.color = y.color;
    y.color = c;
    y.left = Some(n);
    y
}

/// Rotates right at `n`, swapping the colors of the two nodes that move.
fn rotate_right<K, V>(n: Box<Node<K, V>>) -> (r: Box<Node<K, V>>)
    requires
        n.left is Some,
    ensures
        *r == rotated_right(*n),
{
    let mut n = n;
    let mut y = n.left.take().unwrap();
    n.left = y.right.take();
    let c = n.color;
    n.color = y.color;
    y.color = c;
    y.right = Some(n);
    y
}

/// A red top with valid subtrees, at most one of them red: what a red
/// subtree may turn into after an insertion below it.
pub open spec fn red_with_red_child<K, V>(t: Option<Box<Node<K, V>>>) -> bool {
    &&& t is Some
    &&& t->0.color == Color::Red
    &&& no_red_red(t->0.left)
    &&& no_red_red(t->0.right)
    &&& !(is_red(t->0.left) && is_red(t->0.right))
}

/// Whether the subtree has a red root.
fn link_is_red<K, V>(t: &Option<Box<Node<K, V>>>) -> (r: bool)
    ensures
        r == is_red(*t),
{
    match t {
        None => false,
        Some(n) => n.color == Color::Red,
    }
}

/// Sets the color of the top of `n`.
fn painted<K: Ord, V>(n: Box<Node<K, V>>, color: Color) -> (r: Box<Node<K, V>>)
    ensures
        *r == (Node { color, ..*n }),
        link_map(Some(r)) == link_map(Some(n)),
        ordered(Some(r)) == ordered(Some(n)),
        black_balanced(Some(r)) == black_balanced(Some(n)),
        no_red_red(r.left) == no_red_red(n.left),
        no_red_red(r.right) == no_red_red(n.right),
        black_height(Some(r)) == black_height(n.left) + if color == Color::Black { 1nat } else { 0nat },
{
    let mut n = n;
    n.color = color;
    n
}

/// Restores the colors at `n` after an insertion into its left subtree.
///
/// When the left child and one of its children are both red and `n` is
/// black: with a red right child (the uncle of the new red node) the three
/// swap colors and the red moves up to `n`; with a black uncle one or two
/// rotations make the red child the black top of the subtree.
fn fix_insert_left<K: Ord, V>(n: Box<Node<K, V>>) -> (r: Box<Node<K, V>>)
    requires
        key_order::<K>(),
        ordered(Some(n)),
        n.left is Some,
        black_balanced(n.left),
        black_balanced(n.right),
        black_height(n.left) == black_height(n.right),
        no_red_red(n.right),
        no_red_red(n.left) || red_with_red_child(n.left),
        n.color == Color::Red ==> no_red_red(n.left) && !is_red(n.right),
    ensures
        ordered(Some(r)),
        link_map(Some(r)) == link_map(Some(n)),
        black_balanced(Some(r)),
        black_height(Some(r)) == black_height(Some(n)),
        n.color == Color::Black ==> no_red_red(Some(r)),
        n.color == Color::Red ==> red_with_red_child(Some(r)),
{
    let ghost n0 = *n;
    let mut n = n;
    if n.color == Color::Red || !link_is_red(&n.left) {
        return n;
    }
    let c = n.left.take().unwrap();
    let ghost c0 = *c;
    proof {
        assert(black_balanced(c0.left) && black_balanced(c0.right));
        assert(black_height(c0.left) == black_height(c0.right));
        assert(no_red_red(c0.left) && no_red_red(c0.right));
        assert(ordered(n0.left));
    }
    if !link_is_red(&c.left) && !link_is_red(&c.right) {
        n.left = Some(c);
        assert(no_red_red(n.left));
        return n;
    }
    if link_is_red(&n.right) {
        let u = n.right.take().unwrap();
        let ghost u0 = *u;
        proof {
            assert(black_balanced(u0.left) && black_balanced(u0.right));
            assert(black_height(u0.left) == black_height(u0.right));
            assert(no_red_red(u0.left) && no_red_red(u0.right));
        }
        n.left = Some(painted(c, Color::Black));
        n.right = Some(painted(u, Color::Black));
        n.color = Color::Red;
        proof {
            assert(link_map(n.left) == link_map(n0.left));
            assert(link_map(n.right) == link_map(n0.right));
            assert(no_red_red(n.left));
            assert(no_red_red(n.right));
        }
        n
    } else {
        if link_is_red(&c.right) {
            proof {
                lemma_rotate_left(c0);
            }
            let c2 = rotate_left(c);
            let ghost c1 = *c2;
            let ghost x1 = c1.left->0;
            proof {
                assert(black_height(x1.left) == black_height(c0.left));
                assert(black_balanced(x1.left));
                let cr = c0.right->0;
                assert(black_balanced(cr.left) && black_balanced(cr.right));
                assert(black_height(cr.left) == black_height(cr.right));
                assert(no_red_red(cr.left) && no_red_red(cr.right));
                assert(!is_red(cr.left) && !is_red(cr.right));
                assert(black_balanced(c1.left));
                assert(black_height(c1.left) == black_height(c0.left));
                assert(no_red_red(c1.left));
                assert(black_balanced(Some(c2)));
                assert(black_height(Some(c2)) == black_height(Some(c)));
            }
            n.left = Some(c2);
        } else {
            n.left = Some(c);
        }
        let ghost m = *n;
        let ghost d = m.left->0;
        proof {
            assert(ordered(Some(Box::new(m))));
            lemma_rotate_right(m);
            assert(black_balanced(d.left) && black_balanced(d.right));
            assert(black_height(d.left) == black_height(d.right));
            assert(no_red_red(d.left) && no_red_red(d.right));
            assert(is_red(d.left) && !is_red(d.right));
        }
        let r = rotate_right(n);
        proof {
            let t = r.right->0;
            assert(black_balanced(r.right));
            assert(black_height(r.right) == black_height(d.right));
            assert(no_red_red(r.right));
        }
        r
    }
}

/// Restores the colors at `n` after an insertion into its right subtree:
/// the mirror image of `fix_insert_left`.
fn fix_insert_right<K: Ord, V>(n: Box<Node<K, V>>) -> (r: Box<Node<K, V>>)
    requires
        key_order::<K>(),
        ordered(Some(n)),
        n.right is Some,
        black_balanced(n.right),
        black_balanced(n.left),
        black_height(n.right) == black_height(n.left),
        no_red_red(n.left),
        no_red_red(n.right) || red_with_red_child(n.right),
        n.color == Color::Red ==> no_red_red(n.right) && !is_red(n.left),
    ensures
        ordered(Some(r)),
        link_map(Some(r)) == link_map(Some(n)),
        black_balanced(Some(r)),
        black_height(Some(r)) == black_height(Some(n)),
        n.color == Color::Black ==> no_red_red(Some(r)),
        n.color == Color::Red ==> red_with_red_child(Some(r)),
{
    let ghost n0 = *n;
    let mut n = n;
    if n.color == Color::Red || !link_is_red(&n.right) {
        return n;
    }
    let c = n.right.take().unwrap();
    let ghost c0 = *c;
    proof {
        assert(black_balanced(c0.right) && black_balanced(c0.left));
        assert(black_height(c0.right) == black_height(c0.left));
        assert(no_red_red(c0.right) && no_red_red(c0.left));
        assert(ordered(n0.right));
    }
    if !link_is_red(&c.right) && !link_is_red(&c.left) {
        n.right = Some(c);
        assert(no_red_red(n.right));
        return n;
    }
    if link_is_red(&n.left) {
        let u = n.left.take().unwrap();
        let ghost u0 = *u;
        proof {
            assert(black_balanced(u0.right) && black_balanced(u0.left));
            assert(black_height(u0.right) == black_height(u0.left));
            assert(no_red_red(u0.right) && no_red_red(u0.left));
        }
        n.right = Some(painted(c, Color::Black));
        n.left = Some(painted(u, Color::Black));
        n.color = Color::Red;
        proof {
            assert(link_map(n.right) == link_map(n0.right));
            assert(link_map(n.left) == link_map(n0.left));
            assert(no_red_red(n.right));
            assert(no_red_red(n.left));
        }
        n
    } else {
        if link_is_red(&c.left) {
            proof {
                lemma_rotate_right(c0);
            }
            let c2 = rotate_right(c);
            let ghost c1 = *c2;
            let ghost x1 = c1.right->0;
            proof {
                assert(black_height(x1.right) == black_height(c0.right));
                assert(black_balanced(x1.right));
                let cr = c0.left->0;
                assert(black_balanced(cr.right) && black_balanced(cr.left));
                assert(black_height(cr.right) == black_height(cr.left));
                assert(no_red_red(cr.right) && no_red_red(cr.left));
                assert(!is_red(cr.right) && !is_red(cr.left));
                assert(black_balanced(c1.right));
                assert(black_height(c1.right) == black_height(c0.right));
                assert(no_red_red(c1.right));
                assert(black_balanced(Some(c2)));
                assert(black_height(Some(c2)) == black_height(Some(c)));
            }
            n.right = Some(c2);
        } else {
            n.right = Some(c);
        }
        let ghost m = *n;
        let ghost d = m.right->0;
        proof {
            assert(ordered(Some(Box::new(m))));
            lemma_rotate_left(m);
            assert(black_balanced(d.right) && black_balanced(d.left));
            assert(black_height(d.right) == black_height(d.left));
            assert(no_red_red(d.right) && no_red_red(d.left));
            assert(is_red(d.right) && !is_red(d.left));
        }
        let r = rotate_left(n);
        proof {
            let t = r.left->0;
            assert(black_balanced(r.left));
            assert(black_height(r.left) == black_height(d.left));
            assert(no_red_red(r.left));
        }
        r
    }
}

/// Inserts `key` and `value` into the subtree `t`, as a new red node at the
/// place the search ends, or over the value of the node that holds `key`;
/// returns the new subtree and the value that was replaced.
///
/// The black height stays. A black or empty subtree comes back valid, with
/// a top that may now be red; a red one may come back with one red child,
/// which its black parent then mends.
fn insert_link<K: Ord, V>(t: Option<Box<Node<K, V>>>, key: K, value: V) -> (r: (Box<Node<K, V>>, Option<V>))
    requires
        key_order::<K>(),
        ordered(t),
        black_balanced(t),
        no_red_red(t),
    ensures
        ordered(Some(r.0)),
        link_map(Some(r.0)) == link_map(t).insert(key, value),
        r.1 == if link_map(t).contains_key(key) { Some(link_map(t)[key]) } else { None },
        black_balanced(Some(r.0)),
        black_height(Some(r.0)) == black_height(t),
        !is_red(t) ==> no_red_red(Some(r.0)),
        is_red(t) ==> red_with_red_child(Some(r.0)),
    decreases t,
{
    proof {
        lemma_key_order::<K>();
    }
    match t {
        None => {
            let n = Node::new(key, value, Color::Red);
            proof {
                assert(n.left is None && n.right is None && n.key == key && n.value == value);
                assert(link_map::<K, V>(None) == Map::<K, V>::empty());
                assert(Map::<K, V>::empty().union_prefer_right(Map::empty()) =~= Map::empty());
                assert(link_map(Some(n)) =~= Map::<K, V>::empty().insert(key, value));
            }
            (n, None)
        },
        Some(n) => {
            let mut n = n;
            let ghost n0 = *n;
            proof {
                lemma_ordered_sides(t, key);
            }
            match key.cmp(&n.key) {
                Ordering::Equal => {
                    let mut v = value;
                    std::mem::swap(&mut n.value, &mut v);
                    proof {
                        assert(link_map(Some(n)) =~= link_map(t).insert(key, value));
                    }
                    (n, Some(v))
                },
                Ordering::Less => {
                    let (c, old) = insert_link(n.left.take(), key, value);
                    n.left = Some(c);
                    proof {
                        assert forall|k: K| #[trigger] link_map(n.left).contains_key(k) implies key_lt(k, n.key) by {
                            if k != key {
                                assert(link_map(n0.left).contains_key(k));
                            }
                        }
                        assert(ordered(Some(n)));
                        assert(link_map(Some(n)) =~= link_map(t).insert(key, value));
                    }
                    (fix_insert_left(n), old)
                },
                Ordering::Greater => {
                    let (c, old) = insert_link(n.right.take(), key, value);
                    n.right = Some(c);
                    proof {
                        assert forall|k: K| #[trigger] link_map(n.right).contains_key(k) implies key_lt(n.key, k) by {
                            if k != key {
                                assert(link_map(n0.right).contains_key(k));
                            }
                        }
                        assert(ordered(Some(n)));
                        assert(link_map(Some(n)) =~= link_map(t).insert(key, value));
                    }
                    (fix_insert_right(n), old)
                },
            }
        },
    }
}

/// Mends a black deficit in the left subtree of `n` when the sibling on
/// the right is black. With two black nephews the sibling turns red and the
/// deficit moves up to `n` (a red `n` absorbs it by turning black). With a
/// red nephew one or two rotations move a black node over to the left side;
/// the new top takes the color of `n` and its children turn black.
///
/// Returns the new subtree and whether it is still one black node short.
fn fix_remove_left_black<K: Ord, V>(n: Box<Node<K, V>>) -> (r: (Box<Node<K, V>>, bool))
    requires
        key_order::<K>(),
        ordered(Some(n)),
        black_balanced(n.left),
        black_balanced(n.right),
        black_height(n.left) + 1 == black_height(n.right),
        no_red_red(n.left),
        no_red_red(n.right),
        !is_red(n.left),
        !is_red(n.right),
    ensures
        ordered(Some(r.0)),
        link_map(Some(r.0)) == link_map(Some(n)),
        black_balanced(Some(r.0)),
        no_red_red(Some(r.0)),
        black_height(Some(r.0)) + (if r.1 { 1nat } else { 0nat }) == black_height(n.right) + if n.color
            == Color::Black { 1nat } else { 0nat },
        is_red(Some(r.0)) ==> n.color == Color::Red,
        r.1 ==> n.color == Color::Black,
{
    let ghost n0 = *n;
    let mut n = n;
    let y = n.right.take().unwrap();
    let ghost y0 = *y;
    proof {
        assert(black_balanced(y0.left) && black_balanced(y0.right));
        assert(black_height(y0.left) == black_height(y0.right));
        assert(no_red_red(y0.left) && no_red_red(y0.right));
        assert(ordered(n0.right));
    }
    if !link_is_red(&y.left) && !link_is_red(&y.right) {
        n.right = Some(painted(y, Color::Red));
        proof {
            assert(link_map(n.right) == link_map(n0.right));
            assert(no_red_red(n.right));
        }
        if n.color == Color::Red {
            n.color = Color::Black;
            (n, false)
        } else {
            (n, true)
        }
    } else {
        if !link_is_red(&y.right) {
            proof {
                lemma_rotate_right(y0);
            }
            let y2 = rotate_right(y);
            let ghost y1 = *y2;
            proof {
                let yl = y0.left->0;
                assert(black_balanced(yl.left) && black_balanced(yl.right));
                assert(black_height(yl.left) == black_height(yl.right));
                assert(no_red_red(yl.left) && no_red_red(yl.right));
                assert(!is_red(yl.left) && !is_red(yl.right));
                assert(black_balanced(y1.right));
                assert(black_height(y1.right) == black_height(y0.right));
                assert(no_red_red(y1.right));
                assert(black_balanced(Some(y2)));
                assert(no_red_red(y1.left));
                assert(black_height(Some(y2)) == black_height(Some(y)));
            }
            n.right = Some(y2);
        } else {
            n.right = Some(y);
        }
        let ghost m = *n;
        let ghost d = m.right->0;
        proof {
            assert(ordered(Some(Box::new(m))));
            lemma_rotate_left(m);
            assert(black_balanced(d.left) && black_balanced(d.right));
            assert(black_height(d.left) == black_height(d.right));
            assert(no_red_red(d.left) && no_red_red(d.right));
            assert(is_red(d.right));
        }
        let mut t = rotate_left(n);
        let ghost t0 = *t;
        proof {
            assert(black_balanced(t0.left));
            assert(black_height(t0.left) == black_height(d.left) + 1);
            assert(no_red_red(t0.left));
            let f = d.right->0;
            assert(black_balanced(f.left) && black_balanced(f.right));
            assert(black_height(f.left) == black_height(f.right));
            assert(no_red_red(f.left) && no_red_red(f.right));
        }
        let f = t.right.take().unwrap();
        t.right = Some(painted(f, Color::Black));
        proof {
            assert(link_map(t.right) == link_map(t0.right));
            assert(no_red_red(t.right));
        }
        (t, false)
    }
}

/// Mends a black deficit in the left subtree of `n`. A red sibling is
/// first rotated up to the top, which leaves `n` red with a black sibling.
fn fix_remove_left<K: Ord, V>(n: Box<Node<K, V>>) -> (r: (Box<Node<K, V>>, bool))
    requires
        key_order::<K>(),
        ordered(Some(n)),
        black_balanced(n.left),
        black_balanced(n.right),
        black_height(n.left) + 1 == black_height(n.right),
        no_red_red(n.left),
        no_red_red(n.right),
        !is_red(n.left),
        n.color == Color::Red ==> !is_red(n.right),
    ensures
        ordered(Some(r.0)),
        link_map(Some(r.0)) == link_map(Some(n)),
        black_balanced(Some(r.0)),
        no_red_red(Some(r.0)),
        black_height(Some(r.0)) + (if r.1 { 1nat } else { 0nat }) == black_height(n.right) + if n.color
            == Color::Black { 1nat } else { 0nat },
        is_red(Some(r.0)) ==> n.color == Color::Red,
        r.1 ==> !is_red(Some(r.0)),
{
    if link_is_red(&n.right) {
        let ghost n0 = *n;
        let ghost y0 = n0.right->0;
        proof {
            lemma_rotate_left(n0);
            assert(black_balanced(y0.left) && black_balanced(y0.right));
            assert(black_height(y0.left) == black_height(y0.right));
            assert(no_red_red(y0.left) && no_red_red(y0.right));
            assert(!is_red(y0.left) && !is_red(y0.right));
        }
        let mut t = rotate_left(n);
        let ghost t0 = *t;
        let m = t.left.take().unwrap();
        proof {
            assert(ordered(Some(Box::new(t0))));
            assert(ordered(t0.left));
        }
        let (m2, _) = fix_remove_left_black(m);
        t.left = Some(m2);
        proof {
            assert(link_map(t.left) == link_map(t0.left));
            assert(ordered(Some(t)));
            assert(no_red_red(t.left));
        }
        (t, false)
    } else {
        fix_remove_left_black(n)
    }
}

/// Mends a black deficit in the right subtree of `n` when the sibling on
/// the left is black. With two black nephews the sibling turns red and the
/// deficit moves up to `n` (a red `n` absorbs it by turning black). With a
/// red nephew one or two rotations move a black node over to the right side;
/// the new top takes the color of `n` and its children turn black.
///
/// Returns the new subtree and whether it is still one black node short.
fn fix_remove_right_black<K: Ord, V>(n: Box<Node<K, V>>) -> (r: (Box<Node<K, V>>, bool))
    requires
        key_order::<K>(),
        ordered(Some(n)),
        black_balanced(n.right),
        black_balanced(n.left),
        black_height(n.right) + 1 == black_height(n.left),
        no_red_red(n.right),
        no_red_red(n.left),
        !is_red(n.right),
        !is_red(n.left),
    ensures
        ordered(Some(r.0)),
        link_map(Some(r.0)) == link_map(Some(n)),
        black_balanced(Some(r.0)),
        no_red_red(Some(r.0)),
        black_height(Some(r.0)) + (if r.1 { 1nat } else { 0nat }) == black_height(n.left) + if n.color
            == Color::Black { 1nat } else { 0nat },
        is_red(Some(r.0)) ==> n.color == Color::Red,
        r.1 ==> n.color == Color::Black,
{
    let ghost n0 = *n;
    let mut n = n;
    let y = n.left.take().unwrap();
    let ghost y0 = *y;
    proof {
        assert(black_balanced(y0.right) && black_balanced(y0.left));
        assert(black_height(y0.right) == black_height(y0.left));
        assert(no_red_red(y0.right) && no_red_red(y0.left));
        assert(ordered(n0.left));
    }
    if !link_is_red(&y.right) && !link_is_red(&y.left) {
        n.left = Some(painted(y, Color::Red));
        proof {
            assert(link_map(n.left) == link_map(n0.left));
            assert(no_red_red(n.left));
        }
        if n.color == Color::Red {
            n.color = Color::Black;
            (n, false)
        } else {
            (n, true)
        }
    } else {
        if !link_is_red(&y.left) {
            proof {
                lemma_rotate_left(y0);
            }
            let y2 = rotate_left(y);
            let ghost y1 = *y2;
            proof {
                let yl = y0.right->0;
                assert(black_balanced(yl.right) && black_balanced(yl.left));
                assert(black_height(yl.right) == black_height(yl.left));
                assert(no_red_red(yl.right) && no_red_red(yl.left));
                assert(!is_red(yl.right) && !is_red(yl.left));
                assert(black_balanced(y1.left));
                assert(black_height(y1.left) == black_height(y0.left));
                assert(no_red_red(y1.left));
                assert(black_balanced(Some(y2)));
                assert(no_red_red(y1.right));
                assert(black_height(Some(y2)) == black_height(Some(y)));
            }
            n.left = Some(y2);
        } else {
            n.left = Some(y);
        }
        let ghost m = *n;
        let ghost d = m.left->0;
        proof {
            assert(ordered(Some(Box::new(m))));
            lemma_rotate_right(m);
            assert(black_balanced(d.right) && black_balanced(d.left));
            assert(black_height(d.right) == black_height(d.left));
            assert(no_red_red(d.right) && no_red_red(d.left));
            assert(is_red(d.left));
        }
        let mut t = rotate_right(n);
        let ghost t0 = *t;
        proof {
            assert(black_balanced(t0.right));
            assert(black_height(t0.right) == black_height(d.right) + 1);
            assert(no_red_red(t0.right));
            let f = d.left->0;
            assert(black_balanced(f.right) && black_balanced(f.left));
            assert(black_height(f.right) == black_height(f.left));
            assert(no_red_red(f.right) && no_red_red(f.left));
        }
        let f = t.left.take().unwrap();
        t.left = Some(painted(f, Color::Black));
        proof {
            assert(link_map(t.left) == link_map(t0.left));
            assert(no_red_red(t.left));
        }
        (t, false)
    }
}

/// Mends a black deficit in the right subtree of `n`. A red sibling is
/// first rotated up to the top, which leaves `n` red with a black sibling.
fn fix_remove_right<K: Ord, V>(n: Box<Node<K, V>>) -> (r: (Box<Node<K, V>>, bool))
    requires
        key_order::<K>(),
        ordered(Some(n)),
        black_balanced(n.right),
        black_balanced(n.left),
        black_height(n.right) + 1 == black_height(n.left),
        no_red_red(n.right),
        no_red_red(n.left),
        !is_red(n.right),
        n.color == Color::Red ==> !is_red(n.left),
    ensures
        ordered(Some(r.0)),
        link_map(Some(r.0)) == link_map(Some(n)),
        black_balanced(Some(r.0)),
        no_red_red(Some(r.0)),
        black_height(Some(r.0)) + (if r.1 { 1nat } else { 0nat }) == black_height(n.left) + if n.color
            == Color::Black { 1nat } else { 0nat },
        is_red(Some(r.0)) ==> n.color == Color::Red,
        r.1 ==> !is_red(Some(r.0)),
{
    if link_is_red(&n.left) {
        let ghost n0 = *n;
        let ghost y0 = n0.left->0;
        proof {
            lemma_rotate_right(n0);
            assert(black_balanced(y0.right) && black_balanced(y0.left));
            assert(black_height(y0.right) == black_height(y0.left));
            assert(no_red_red(y0.right) && no_red_red(y0.left));
            assert(!is_red(y0.right) && !is_red(y0.left));
        }
        let mut t = rotate_right(n);
        let ghost t0 = *t;
        let m = t.right.take().unwrap();
        proof {
            assert(ordered(Some(Box::new(t0))));
            assert(ordered(t0.right));
        }
        let (m2, _) = fix_remove_right_black(m);
        t.right = Some(m2);
        proof {
            assert(link_map(t.right) == link_map(t0.right));
            assert(ordered(Some(t)));
            assert(no_red_red(t.right));
        }
        (t, false)
    } else {
        fix_remove_right_black(n)
    }
}

/// Takes out the node with the smallest key of the subtree `n`: the
/// leftmost node, which has no left child. Returns what is left of the
/// subtree, the entry taken, and whether the rest is one black node short.
fn remove_min<K: Ord, V>(n: Box<Node<K, V>>) -> (r: (Option<Box<Node<K, V>>>, K, V, bool))
    requires
        key_order::<K>(),
        ordered(Some(n)),
        black_balanced(Some(n)),
        no_red_red(Some(n)),
    ensures
        link_map(Some(n)).contains_key(r.1),
        link_map(Some(n))[r.1] == r.2,
        forall|k: K| #[trigger] link_map(Some(n)).contains_key(k) && k != r.1 ==> key_lt(r.1, k),
        link_map(r.0) == link_map(Some(n)).remove(r.1),
        ordered(r.0),
        black_balanced(r.0),
        no_red_red(r.0),
        black_height(r.0) + (if r.3 { 1nat } else { 0nat }) == black_height(Some(n)),
        is_red(r.0) ==> n.color == Color::Red,
        r.3 ==> !is_red(r.0),
    decreases n,
{
    proof {
        lemma_key_order::<K>();
    }
    let ghost n0 = *n;
    let mut n = n;
    if n.left.is_none() {
        proof {
            assert(black_balanced(n0.right) && no_red_red(n0.right));
            assert(link_map::<K, V>(None) == Map::<K, V>::empty());
            assert(link_map(Some(Box::new(n0))).remove(n0.key) =~= link_map(n0.right));
        }
        let Node { key, value, color, left: _, right } = *n;
        match right {
            Some(c) => {
                proof {
                    assert(black_balanced(c.left) && black_balanced(c.right));
                    assert(no_red_red(c.left) && no_red_red(c.right));
                }
                (Some(painted(c, Color::Black)), key, value, false)
            },
            None => (None, key, value, color == Color::Black),
        }
    } else {
        let l = n.left.take().unwrap();
        proof {
            assert(ordered(Some(l)));
        }
        let (rest, k, v, shorter) = remove_min(l);
        n.left = rest;
        proof {
            assert(key_lt(k, n0.key));
            assert forall|j: K| #[trigger] link_map(n.left).contains_key(j) implies key_lt(j, n.key) by {
                assert(link_map(n0.left).contains_key(j));
            }
            assert(ordered(Some(n)));
            lemma_ordered_sides(Some(Box::new(n0)), k);
            assert(link_map(Some(n)) =~= link_map(Some(Box::new(n0))).remove(k));
            assert forall|j: K| #[trigger] link_map(Some(Box::new(n0))).contains_key(j) && j != k implies key_lt(k, j) by {
                if link_map(n0.right).contains_key(j) {
                    assert(key_lt(n0.key, j));
                }
            }
        }
        if shorter {
            let (m, sh) = fix_remove_left(n);
            (Some(m), k, v, sh)
        } else {
            proof {
                assert(no_red_red(Some(n)));
            }
            (Some(n), k, v, false)
        }
    }
}

/// Removes `key` from the subtree `t`. A node with two children takes the
/// entry of its in-order successor, which is removed in its place; a node
/// with one child is replaced by that child, painted black; a leaf is
/// dropped, and a black one leaves its parent a black deficit to mend.
///
/// Returns the new subtree, the entry removed, and whether the subtree is
/// now one black node short.
fn remove_link<K: Ord, V>(t: Option<Box<Node<K, V>>>, key: &K) -> (r: (Option<Box<Node<K, V>>>, Option<(K, V)>, bool))
    requires
        key_order::<K>(),
        ordered(t),
        black_balanced(t),
        no_red_red(t),
    ensures
        link_map(r.0) == link_map(t).remove(*key),
        r.1 == if link_map(t).contains_key(*key) { Some((*key, link_map(t)[*key])) } else { None },
        ordered(r.0),
        black_balanced(r.0),
        no_red_red(r.0),
        black_height(r.0) + (if r.2 { 1nat } else { 0nat }) == black_height(t),
        is_red(r.0) ==> is_red(t),
        r.2 ==> !is_red(r.0),
    decreases t,
{
    proof {
        lemma_key_order::<K>();
    }
    match t {
        None => {
            proof {
                assert(link_map::<K, V>(None).remove(*key) =~= Map::<K, V>::empty());
            }
            (None, None, false)
        },
        Some(n) => {
            let ghost n0 = *n;
            let mut n = n;
            proof {
                lemma_ordered_sides(t, *key);
                assert(ordered(n0.left) && ordered(n0.right));
                assert(black_balanced(n0.left) && black_balanced(n0.right));
                assert(no_red_red(n0.left) && no_red_red(n0.right));
            }
            match key.cmp(&n.key) {
                Ordering::Less => {
                    let (l, res, shorter) = remove_link(n.left.take(), key);
                    n.left = l;
                    proof {
                        assert forall|j: K| #[trigger] link_map(n.left).contains_key(j) implies key_lt(j, n.key) by {
                            assert(link_map(n0.left).contains_key(j));
                        }
                        assert(ordered(Some(n)));
                        assert(link_map(Some(n)) =~= link_map(t).remove(*key));
                    }
                    if shorter {
                        let (m, sh) = fix_remove_left(n);
                        (Some(m), res, sh)
                    } else {
                        proof {
                            assert(no_red_red(Some(n)));
                        }
                        (Some(n), res, false)
                    }
                },
                Ordering::Greater => {
                    let (l, res, shorter) = remove_link(n.right.take(), key);
                    n.right = l;
                    proof {
                        assert forall|j: K| #[trigger] link_map(n.right).contains_key(j) implies key_lt(n.key, j) by {
                            assert(link_map(n0.right).contains_key(j));
                        }
                        assert(ordered(Some(n)));
                        assert(link_map(Some(n)) =~= link_map(t).remove(*key));
                    }
                    if shorter {
                        let (m, sh) = fix_remove_right(n);
                        (Some(m), res, sh)
                    } else {
                        proof {
                            assert(no_red_red(Some(n)));
                        }
                        (Some(n), res, false)
                    }
                },
                Ordering::Equal => {
                    if n.left.is_some() && n.right.is_some() {
                        let succ = n.right.take().unwrap();
                        let (rest, k, v, shorter) = remove_min(succ);
                        n.right = rest;
                        let mut k2 = k;
                        let mut v2 = v;
                        std::mem::swap(&mut n.key, &mut k2);
                        std::mem::swap(&mut n.value, &mut v2);
                        proof {
                            assert(key_lt(n0.key, k));
                            assert forall|j: K| #[trigger] link_map(n.right).contains_key(j) implies key_lt(n.key, j) by {
                                assert(link_map(n0.right).contains_key(j));
                            }
                            assert forall|j: K| #[trigger] link_map(n.left).contains_key(j) implies key_lt(j, n.key) by {
                                assert(key_lt(j, n0.key));
                            }
                            assert(ordered(Some(n)));
                            assert(link_map(Some(n)) =~= link_map(t).remove(*key));
                        }
                        if shorter {
                            let (m, sh) = fix_remove_right(n);
                            (Some(m), Some((k2, v2)), sh)
                        } else {
                            proof {
                                assert(no_red_red(Some(n)));
                            }
                            (Some(n), Some((k2, v2)), false)
                        }
                    } else {
                        proof {
                            assert(link_map::<K, V>(None) == Map::<K, V>::empty());
                            assert(n0.left is None ==> link_map(t).remove(*key) =~= link_map(n0.right));
                            assert(n0.right is None ==> link_map(t).remove(*key) =~= link_map(n0.left));
                        }
                        let Node { key: k, value: v, color, left, right } = *n;
                        let child = if left.is_some() { left } else { right };
                        match child {
                            Some(c) => {
                                proof {
                                    assert(black_balanced(c.left) && black_balanced(c.right));
                                    assert(no_red_red(c.left) && no_red_red(c.right));
                                }
                                (Some(painted(c, Color::Black)), Some((k, v)), false)
                            },
                            None => (None, Some((k, v)), color == Color::Black),
                        }
                    }
                },
            }
        },
    }
}

/// The in-order entries of an ordered subtree have strictly ascending keys
/// and are exactly its entries.
proof fn lemma_in_order<K: Ord, V>(t: Option<Box<Node<K, V>>>)
    requires
        key_order::<K>(),
        ordered(t),
    ensures
        forall|i: int, j: int| 0 <= i < j < in_order(t).len() ==> key_lt(#[trigger] in_order(t)[i].0, #[trigger] in_order(t)[j].0),
        forall|i: int| 0 <= i < in_order(t).len() ==> link_map(t).contains_key(#[trigger] in_order(t)[i].0)
            && link_map(t)[in_order(t)[i].0] == in_order(t)[i].1,
        forall|k: K| #[trigger] link_map(t).contains_key(k) ==> exists|i: int| 0 <= i < in_order(t).len() && in_order(t)[i].0 == k,
    decreases t,
{
    match t {
        None => {},
        Some(n) => {
            lemma_key_order::<K>();
            lemma_in_order(n.left);
            lemma_in_order(n.right);
            let l = in_order(n.left);
            let r = in_order(n.right);
            let s = in_order(t);
            assert(s == l + seq![(n.key, n.value)] + r);
            let ln = l.len() as int;
            assert forall|i: int| 0 <= i < s.len() implies link_map(t).contains_key(#[trigger] s[i].0) && link_map(t)[s[i].0] == s[i].1 by {
                if i < ln {
                    assert(s[i] == l[i]);
                    assert(key_lt(l[i].0, n.key));
                    lemma_ordered_sides(t, l[i].0);
                } else if i > ln {
                    assert(s[i] == r[i - ln - 1]);
                }
            }
            assert forall|i: int, j: int| 0 <= i < j < s.len() implies key_lt(#[trigger] s[i].0, #[trigger] s[j].0) by {
                if i < ln {
                    assert(s[i] == l[i]);
                    assert(link_map(n.left).contains_key(l[i].0));
                    if j < ln {
                        assert(s[j] == l[j]);
                    } else if j > ln {
                        assert(s[j] == r[j - ln - 1]);
                        assert(link_map(n.right).contains_key(r[j - ln - 1].0));
                    }
                } else if i == ln {
                    assert(s[j] == r[j - ln - 1]);
                    assert(link_map(n.right).contains_key(r[j - ln - 1].0));
                } else {
                    assert(s[i] == r[i - ln - 1]);
                    assert(s[j] == r[j - ln - 1]);
                }
            }
            assert forall|k: K| #[trigger] link_map(t).contains_key(k) implies exists|i: int| 0 <= i < s.len() && s[i].0 == k by {
                if k == n.key {
                    assert(s[ln].0 == k);
                } else if link_map(n.right).contains_key(k) {
                    let i = choose|i: int| 0 <= i < r.len() && r[i].0 == k;
                    assert(s[ln + 1 + i] == r[i]);
                    assert(s[ln + 1 + i].0 == k);
                } else {
                    assert(link_map(t) == link_map(n.left).union_prefer_right(link_map(n.right)).insert(n.key, n.value));
                    assert(link_map(n.left).contains_key(k));
                    let i = choose|i: int| 0 <= i < l.len() && l[i].0 == k;
                    assert(s[i] == l[i]);
                    assert(s[i].0 == k);
                }
            }
        },
    }
}

/// The map that inserting each pair of `ops` in turn into `m` leaves.
pub open spec fn after_inserts<K, V>(m: Map<K, V>, ops: Seq<(K, V)>) -> Map<K, V>
    decreases ops.len(),
{
    if ops.len() == 0 {
        m
    } else {
        after_inserts(m, ops.drop_last()).insert(ops.last().0, ops.last().1)
    }
}

/// The map that removing each key of `keys` in turn from `m` leaves.
pub open spec fn after_removes<K, V>(m: Map<K, V>, keys: Seq<K>) -> Map<K, V>
    decreases keys.len(),
{
    if keys.len() == 0 {
        m
    } else {
        after_removes(m, keys.drop_last()).remove(keys.last())
    }
}

/// After a run of insertions into an empty map, every key inserted is
/// present, with the value of its last insertion.
pub proof fn lemma_inserts_then_get<K, V>(ops: Seq<(K, V)>, i: int)
    requires
        0 <= i < ops.len(),
        forall|j: int| i < j < ops.len() ==> ops[j].0 != ops[i].0,
    ensures
        after_inserts(Map::empty(), ops).contains_key(ops[i].0),
        after_inserts(Map::empty(), ops)[ops[i].0] == ops[i].1,
    decreases ops.len(),
{
    if i < ops.len() - 1 {
        let front = ops.drop_last();
        assert forall|j: int| i < j < front.len() implies front[j].0 != front[i].0 by {
            assert(front[j] == ops[j]);
        }
        lemma_inserts_then_get(front, i);
        assert(ops.last() == ops[ops.len() - 1]);
    }
}

/// Every key of a map built by insertions into an empty map was inserted.
proof fn lemma_inserted_keys<K, V>(ops: Seq<(K, V)>)
    ensures
        forall|k: K| #[trigger] after_inserts(Map::empty(), ops).contains_key(k) ==> exists|i: int| 0 <= i < ops.len() && ops[i].0 == k,
    decreases ops.len(),
{
    if ops.len() > 0 {
        let front = ops.drop_last();
        lemma_inserted_keys(front);
        assert forall|k: K| #[trigger] after_inserts(Map::empty(), ops).contains_key(k) implies exists|i: int| 0 <= i < ops.len() && ops[i].0 == k by {
            if k == ops.last().0 {
                assert(ops[ops.len() - 1].0 == k);
            } else {
                assert(after_inserts(Map::empty(), front).contains_key(k));
                let i = choose|i: int| 0 <= i < front.len() && front[i].0 == k;
                assert(ops[i] == front[i]);
            }
        }
    }
}

/// A key survives a run of removals when it was there and is not removed.
proof fn lemma_removed_keys<K, V>(m: Map<K, V>, keys: Seq<K>)
    ensures
        forall|k: K| #[trigger] after_removes(m, keys).contains_key(k) <==> m.contains_key(k) && !keys.contains(k),
    decreases keys.len(),
{
    if keys.len() > 0 {
        let front = keys.drop_last();
        lemma_removed_keys(m, front);
        assert(after_removes(m, keys) == after_removes(m, front).remove(keys.last()));
        assert forall|k: K| keys.contains(k) <==> front.contains(k) || k == keys.last() by {
            if keys.contains(k) && k != keys.last() {
                let i = choose|i: int| 0 <= i < keys.len() && keys[i] == k;
                assert(i < keys.len() - 1);
                assert(front[i] == k);
            }
            if front.contains(k) {
                let i = choose|i: int| 0 <= i < front.len() && front[i] == k;
                assert(keys[i] == k);
            }
            if k == keys.last() {
                assert(keys[keys.len() - 1] == k);
            }
        }
    }
}

/// Removing, in any order, every key that a run of insertions into an empty
/// map put there leaves the map empty.
pub proof fn lemma_remove_all_inserted<K, V>(ops: Seq<(K, V)>, keys: Seq<K>)
    requires
        forall|i: int| 0 <= i < ops.len() ==> keys.contains(#[trigger] ops[i].0),
    ensures
        after_removes(after_inserts(Map::empty(), ops), keys) == Map::<K, V>::empty(),
        after_removes(after_inserts(Map::empty(), ops), keys).len() == 0,
{
    lemma_inserted_keys(ops);
    lemma_removed_keys(after_inserts(Map::empty(), ops), keys);
    let m = after_removes(after_inserts(Map::empty(), ops), keys);
    assert forall|k: K| !m.contains_key(k) by {
        if after_inserts(Map::<K, V>::empty(), ops).contains_key(k) {
            let i = choose|i: int| 0 <= i < ops.len() && ops[i].0 == k;
            assert(keys.contains(ops[i].0));
        }
    }
    assert(m =~= Map::<K, V>::empty());
}

/// An ordered subtree holds finitely many entries, at least as many as its
/// black height.
proof fn lemma_black_height_le_len<K: Ord, V>(t: Option<Box<Node<K, V>>>)
    requires
        key_order::<K>(),
        ordered(t),
    ensures
        link_map(t).dom().finite(),
        black_height(t) <= link_map(t).len(),
    decreases t,
{
    match t {
        None => {},
        Some(n) => {
            lemma_key_order::<K>();
            lemma_black_height_le_len(n.left);
            lemma_black_height_le_len(n.right);
            let u = link_map(n.left).dom().union(link_map(n.right).dom());
            assert(link_map(n.left).union_prefer_right(link_map(n.right)).dom() =~= u);
            vstd::set_lib::lemma_len_subset(link_map(n.left).dom(), u);
            if u.contains(n.key) {
                if link_map(n.left).contains_key(n.key) {
                    assert(key_lt(n.key, n.key));
                } else {
                    assert(link_map(n.right).contains_key(n.key));
                    assert(key_lt(n.key, n.key));
                }
            }
            assert(link_map(t).dom() == u.insert(n.key));
        },
    }
}

/// The black height of `t` if it is a valid red-black subtree; `None` if
/// some node has children of different black heights or a red node has a
/// red child.
fn check_link<K, V>(t: &Option<Box<Node<K, V>>>) -> (r: Option<usize>)
    ensures
        r is Some ==> black_balanced(*t) && no_red_red(*t) && r->0 == black_height(*t),
        black_balanced(*t) && no_red_red(*t) && black_height(*t) <= usize::MAX ==> r is Some,
    decreases *t,
{
    match t {
        None => Some(0),
        Some(n) => {
            let l = check_link(&n.left);
            let r = check_link(&n.right);
            match (l, r) {
                (Some(a), Some(b)) => {
                    if a != b {
                        None
                    } else if n.color == Color::Red {
                        if link_is_red(&n.left) || link_is_red(&n.right) {
                            None
                        } else {
                            Some(a)
                        }
                    } else {
                        a.checked_add(1)
                    }
                },
                _ => None,
            }
        },
    }
}

impl<K: Ord, V> RBTreeMap<K, V> {
    /// The black height of the whole tree.
    pub closed spec fn black_height(&self) -> nat {
        black_height(self.root)
    }

    /// Walks the whole tree and returns its black height if every path from
    /// the root down to an absent child meets as many black nodes and no red
    /// node has a red child; `None` otherwise.
    pub fn is_234tree(&self) -> (r: Option<usize>)
        ensures
            r is Some ==> self.is_black_balanced() && self.has_no_red_red() && r->0 == self.black_height(),
            key_order::<K>() && self.wf() ==> r == Some(self.black_height() as usize),
    {
        proof {
            if key_order::<K>() && self.wf() {
                lemma_black_height_le_len(self.root);
            }
        }
        check_link(&self.root)
    }

    /// Inserting one key twice: the second insertion finds the value of the
    /// first (which `insert` then returns), the map ends as if only the
    /// second had been made, and the size stays.
    pub proof fn lemma_insert_twice(&self, key: K, v1: V, v2: V)
        requires
            self.wf(),
        ensures
            self@.insert(key, v1).contains_key(key),
            self@.insert(key, v1)[key] == v1,
            self@.insert(key, v1).insert(key, v2) == self@.insert(key, v2),
            self@.insert(key, v1).insert(key, v2).len() == self@.insert(key, v1).len(),
    {
        assert(self@.insert(key, v1).insert(key, v2) =~= self@.insert(key, v2));
        assert(self@.insert(key, v1).dom().insert(key) =~= self@.insert(key, v1).dom());
    }

    /// The entries come in strictly ascending key order, and they are
    /// exactly the entries of the map: a walk with `iter` yields what an
    /// ordered reference map would, key for key and value for value.
    pub proof fn lemma_entries_sorted(&self)
        requires
            self.wf(),
            key_order::<K>(),
        ensures
            forall|i: int, j: int| 0 <= i < j < self.entries().len() ==> key_lt(#[trigger] self.entries()[i].0, #[trigger] self.entries()[j].0),
            forall|i: int| 0 <= i < self.entries().len() ==> self@.contains_key(#[trigger] self.entries()[i].0)
                && self@[self.entries()[i].0] == self.entries()[i].1,
            forall|k: K| #[trigger] self@.contains_key(k) ==> exists|i: int| 0 <= i < self.entries().len() && self.entries()[i].0 == k,
    {
        lemma_in_order(self.root);
        assert forall|k: K| #[trigger] self@.contains_key(k) implies exists|i: int| 0 <= i < self.entries().len() && self.entries()[i].0 == k by {
            assert(link_map(self.root).contains_key(k));
            let i = choose|i: int| 0 <= i < in_order(self.root).len() && in_order(self.root)[i].0 == k;
            assert(self.entries()[i].0 == k);
        }
    }

    /// Makes a new, empty map.
    pub fn new() -> (r: Self)
        ensures
            r.wf(),
            r@ == Map::<K, V>::empty(),
    {
        RBTreeMap { size: 0, root: None }
    }

    /// The number of entries.
    pub fn len(&self) -> (r: usize)
        requires
            self.wf(),
        ensures
            r == self@.len(),
    {
        self.size
    }

    /// Removes every entry. The nodes are freed one at a time from a stack,
    /// so that no recursion as deep as the tree is needed.
    pub fn clear(&mut self)
        ensures
            final(self).wf(),
            final(self)@ == Map::<K, V>::empty(),
    {
        let mut stack: Vec<Box<Node<K, V>>> = Vec::new();
        match self.root.take() {
            Some(r) => {
                stack.push(r);
            },
            None => {},
        }
        while stack.len() > 0
            decreases stack_count(stack@),
        {
            let ghost s0 = stack@;
            let mut n = stack.pop().unwrap();
            let ghost s1 = stack@;
            let ghost n0 = *n;
            proof {
                assert(s0.drop_last() =~= s1);
                assert(stack_count(s0) == node_count(Some(n)) + stack_count(s1));
            }
            match n.left.take() {
                Some(l) => {
                    let ghost before = stack@;
                    stack.push(l);
                    proof {
                        assert(stack@.drop_last() =~= before);
                        assert(stack_count(stack@) == node_count(Some(l)) + stack_count(before));
                    }
                },
                None => {},
            }
            assert(stack_count(stack@) == node_count(n0.left) + stack_count(s1));
            match n.right.take() {
                Some(r) => {
                    let ghost before = stack@;
                    stack.push(r);
                    proof {
                        assert(stack@.drop_last() =~= before);
                        assert(stack_count(stack@) == node_count(Some(r)) + stack_count(before));
                    }
                },
                None => {},
            }
            assert(stack_count(stack@) == node_count(n0.left) + node_count(n0.right) + stack_count(s1));
        }
        self.root = None;
        self.size = 0;
    }

    /// Walks down from the root to the node that holds `key`.
    fn search_node(&self, key: &K) -> (r: Option<&Node<K, V>>)
        requires
            self.wf(),
            key_order::<K>(),
        ensures
            match r {
                None => !self@.contains_key(*key),
                Some(n) => self@.contains_key(*key) && n.key == *key && n.value == self@[*key],
            },
    {
        let mut cur: &Option<Box<Node<K, V>>> = &self.root;
        loop
            invariant
                key_order::<K>(),
                ordered(*cur),
                self@.contains_key(*key) == link_map(*cur).contains_key(*key),
                self@.contains_key(*key) ==> self@[*key] == link_map(*cur)[*key],
            decreases *cur,
        {
            match cur {
                None => {
                    return None;
                },
                Some(n) => {
                    proof {
                        lemma_key_order::<K>();
                        lemma_ordered_sides(*cur, *key);
                    }
                    match key.cmp(&n.key) {
                        Ordering::Less => {
                            cur = &n.left;
                        },
                        Ordering::Greater => {
                            cur = &n.right;
                        },
                        Ordering::Equal => {
                            return Some(&**n);
                        },
                    }
                },
            }
        }
    }

    /// The value stored under `key`.
    pub fn get(&self, key: &K) -> (r: Option<&V>)
        requires
            self.wf(),
            key_order::<K>(),
        ensures
            r == if self@.contains_key(*key) { Some(&self@[*key]) } else { None },
    {
        match self.search_node(key) {
            None => None,
            Some(n) => Some(&n.value),
        }
    }

    /// The stored key and value that match `key`.
    pub fn get_key_value(&self, key: &K) -> (r: Option<(&K, &V)>)
        requires
            self.wf(),
            key_order::<K>(),
        ensures
            r == if self@.contains_key(*key) { Some((key, &self@[*key])) } else { None },
    {
        match self.search_node(key) {
            None => None,
            Some(n) => Some((&n.key, &n.value)),
        }
    }

    /// Inserts a key-value pair. Returns the value that `key` had, if it
    /// had one; the size then stays and only the value changes. A new key
    /// needs room in the `usize` count of entries.
    pub fn insert(&mut self, key: K, value: V) -> (r: Option<V>)
        requires
            old(self).wf(),
            key_order::<K>(),
            old(self)@.len() < usize::MAX,
        ensures
            final(self).wf(),
            final(self)@ == old(self)@.insert(key, value),
            r == if old(self)@.contains_key(key) { Some(old(self)@[key]) } else { None },
    {
        let (n, old) = insert_link(self.root.take(), key, value);
        self.root = Some(painted(n, Color::Black));
        if old.is_none() {
            self.size = self.size + 1;
        }
        old
    }

    /// Removes `key`, returning the stored key and value if it was there.
    pub fn remove_entry(&mut self, key: &K) -> (r: Option<(K, V)>)
        requires
            old(self).wf(),
            key_order::<K>(),
        ensures
            final(self).wf(),
            final(self)@ == old(self)@.remove(*key),
            r == if old(self)@.contains_key(*key) { Some((*key, old(self)@[*key])) } else { None },
    {
        let (t, res) = match remove_link(self.root.take(), key) {
            (Some(n), res, _) => (Some(painted(n, Color::Black)), res),
            (None, res, _) => (None, res),
        };
        self.root = t;
        if res.is_some() {
            self.size = self.size - 1;
        }
        res
    }

    /// Removes `key`, returning its value if it was there.
    pub fn remove(&mut self, key: &K) -> (r: Option<V>)
        requires
            old(self).wf(),
            key_order::<K>(),
        ensures
            final(self).wf(),
            final(self)@ == old(self)@.remove(*key),
            r == if old(self)@.contains_key(*key) { Some(old(self)@[*key]) } else { None },
    {
        match self.remove_entry(key) {
            Some((_, v)) => Some(v),
            None => None,
        }
    }

    /// A walk over the entries in key order.
    pub fn iter(&self) -> (r: Iter<'_, K, V>)
        ensures
            r@ == self.entries(),
    {
        let mut it = Iter { stack: Vec::new() };
        proof {
            assert(it@ =~= Seq::<(K, V)>::empty());
        }
        it.push_left_spine(&self.root);
        proof {
            assert(it@ =~= self.entries());
        }
        it
    }

    /// Whether the map holds an entry for `key`.
    pub fn contains_key(&self, key: &K) -> (r: bool)
        requires
            self.wf(),
            key_order::<K>(),
        ensures
            r == self@.contains_key(*key),
    {
        self.get(key).is_some()
    }
}

} // verus!
