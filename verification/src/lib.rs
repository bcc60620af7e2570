//! An arbitrarily-branching tree container.
//!
//! A [`node::Node`] owns one payload value and an ordered sequence of child
//! nodes of the same payload type.  The module [`node`] provides construction,
//! child insertion, indexed, path-based and level-based navigation; the module
//! [`traverse`] provides whole-tree traversal in depth-first (pre-order) and
//! breadth-first (level-order) order.
//!
//! Every operation is specified against the ghost model [`node::TreeView`]: a
//! node's view is its payload together with the views of its children, in
//! insertion order.

pub mod node;
pub mod traverse;

pub use node::Node;
pub use node::TreeView;
