//! Ordered collections kept as balanced binary search trees: a red-black
//! tree map and an AVL tree set, with their invariants proved.
pub mod order;
pub mod rbtree;
pub mod avltree;
