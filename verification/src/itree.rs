//! The interval tree: its intervals, nodes, the tree itself, a read-only view over its two
//! flavours and the construction of trees from page contents

pub mod interval;
pub mod itree_node;
pub mod tree;
pub mod view;
pub mod diff;
pub mod accept;

pub use tree::ITree;
pub use view::ITreeView;
