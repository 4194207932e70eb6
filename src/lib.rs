//! Enumeration of functional digraphs up to isomorphism by canonical codes.
//!
//! Rooted trees are coded in preorder by subtree sizes (`tree`), a connected component
//! is the cyclic sequence of the trees on its cycle, canonical when it is the least of
//! its rotations (`rotation`, `comp`), and the components on `n` vertices are walked
//! depth first over the tree whose edges merge two neighbouring trees (`walk`). Whole
//! digraphs are nondecreasing sequences of components (`digraph`), written out in
//! digraph6 (`digraph6`).

pub mod comp;
pub mod digraph;
pub mod digraph6;
pub mod lex;
pub mod rotation;
pub mod tree;
pub mod walk;
