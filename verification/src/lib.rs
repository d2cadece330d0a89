//! An order-bounded multiway search tree mapping integer keys to string
//! values.
//!
//! A tree is configured once, at construction, with an `order`: the largest
//! number of entries a node may hold. Insertion places the new entry at the
//! leaf its key descends to and then rebalances: a node that exceeds the
//! order is split around its median, a node that has fallen below the minimum
//! occupancy is absorbed into its parent, and the depth labels of the whole
//! tree are recomputed from the root. The structural invariants — strict key
//! ordering, branching shape, separator containment, depth consistency,
//! capacity and minimum occupancy — are stated as spec functions and proved
//! to hold after every insertion.

mod node;
mod tree;
mod laws;

pub use node::Entry;
pub use node::Node;
pub use node::sep_lo;
pub use node::sep_hi;
pub use node::first_ge;
pub use node::entries_ms;
pub use node::children_contents_from;
pub use node::depth_ok;
pub use node::row_pairs;
pub use node::same_but_labels;
pub use node::relabeled_like;
pub use node::lemma_relabel_idempotent;
pub use tree::Tree;
pub use tree::ConfigError;
pub use tree::TreeStats;
pub use laws::in_subtree;
pub use laws::lemma_subtree_inv;
pub use laws::lemma_subtree_depth;
pub use laws::lemma_ordering;
pub use laws::lemma_shape;
pub use laws::lemma_capacity;
pub use laws::lemma_occupancy;
pub use laws::lemma_separator_containment;
pub use laws::lemma_depth_consistency;
pub use laws::lemma_membership;
