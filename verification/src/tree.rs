use vstd::prelude::*;
use vstd::multiset::Multiset;
use crate::node::{Entry, Node, depth_ok, entry_pairs, entries_ms, sep_lo, sep_hi, first_ge, children_contents_from, row_pairs, lemma_stats_bounded};

verus! {

broadcast use vstd::seq_lib::group_to_multiset_ensures, vstd::multiset::group_multiset_axioms;

/// A construction-time error: the configured order cannot sustain the
/// split/absorb discipline.
#[derive(Debug, PartialEq, Eq, Structural)]
pub enum ConfigError {
    OrderTooSmall,
}

/// Aggregate figures over a fully fixed-up tree.
#[derive(Debug, PartialEq, Eq, Structural, Clone, Copy)]
pub struct TreeStats {
    pub total_nodes: u64,
    pub height: u64,
    pub total_keys: u64,
    pub leaf_nodes: u64,
    pub internal_nodes: u64,
}

/// The tree: the root node it owns, the immutable order it was configured
/// with, and the number of completed insertions.
pub struct Tree {
    pub root: Node,
    pub order: usize,
    pub count: u64,
}

impl Tree {
    /// The whole-tree invariant: the root subtree is structurally sound
    /// between the open bounds that admit every `u32` key, depth labels
    /// count from 1 at the root, and the stored pairs never outnumber the
    /// completed insertions.
    pub open spec fn inv(self) -> bool {
        &&& self.order >= 3
        &&& self.root.inv(-1, 0x1_0000_0000, self.order as int)
        &&& depth_ok(self.root, 1)
        &&& self.root.contents().len() <= self.count
    }

    /// Builds an empty tree of the given order. Orders below 3 are rejected:
    /// the configuration is reported to the caller, never clamped.
    pub fn new(order: usize) -> (r: Result<Tree, ConfigError>)
        ensures
            order >= 3 <==> r is Ok,
            r is Ok ==> {
                let t = r->Ok_0;
                &&& t.inv()
                &&& t.order == order
                &&& t.count == 0
                &&& t.root.entries@.len() == 0
                &&& t.root.children@.len() == 0
                &&& t.root.depth == 1
                &&& t.root.contents() == Multiset::<(u32, Seq<char>)>::empty()
            },
    {
        if order < 3 {
            return Result::Err(ConfigError::OrderTooSmall);
        }
        let root = Node { entries: Vec::new(), depth: 1, children: Vec::new() };
        proof {
            broadcast use vstd::seq_lib::group_to_multiset_ensures;
            vstd::multiset::lemma_multiset_empty_len(root.contents());
            assert(entry_pairs(root.entries@) =~= Seq::<(u32, Seq<char>)>::empty());
            assert(entries_ms(root.entries@).len() == 0);
            assert(root.contents() =~= Multiset::<(u32, Seq<char>)>::empty());
        }
        Result::Ok(Tree { root, order, count: 0 })
    }
}

impl Tree {
    /// Inserts `value` under `key`. Insertion always succeeds: the entry is
    /// placed at the leaf the descent rule reaches (an equal key has its
    /// value overwritten — the documented duplicate policy is last write
    /// wins), the tree is repaired bottom-up, an over-full root is split,
    /// and the depth labels are recomputed from the root. Afterwards the
    /// whole invariant holds again, the stored pairs are exactly the old
    /// ones with `value` written under `key`, and the descent rule finds
    /// the new value.
    pub fn insert(&mut self, key: u32, value: String)
        requires
            old(self).inv(),
            old(self).count < u64::MAX - 1,
        ensures
            final(self).inv(),
            final(self).order == old(self).order,
            final(self).count == old(self).count + 1,
            final(self).root.contents() == old(self).root.contents_after(key, value@),
            final(self).root.lookup(key) == Option::Some(value@),
    {
        let ghost lo: int = -1;
        let ghost hi: int = 0x1_0000_0000;
        let ghost oldroot = self.root;
        let order = self.order;
        let mut work = Node { entries: Vec::new(), depth: 1, children: Vec::new() };
        core::mem::swap(&mut work, &mut self.root);
        let work = work.insert_at(key, value, order, Ghost(lo), Ghost(hi));
        let work = if work.entries.len() > order {
            // the root itself overflowed: split it; the root is the one
            // node exempt from minimum occupancy, so it may keep the
            // lone median
            work.split(order, Ghost(lo), Ghost(hi))
        } else {
            work
        };
        proof {
            assert(work.inv(lo, hi, order as int));
            work.lemma_inv_min_filled(lo, hi, order as int, order as int);
            oldroot.lemma_lookup_contents(key);
            if oldroot.lookup(key) is Some {
                let w = oldroot.lookup(key)->Some_0;
                let kw = (key, w);
                assert forall|q: (u32, Seq<char>)|
                    Multiset::singleton(kw).count(q) <= oldroot.contents().count(q) by {
                }
                assert(Multiset::singleton(kw).subset_of(oldroot.contents()));
                assert(oldroot.contents().remove(kw).len() == oldroot.contents().len() - 1);
            }
            assert(work.contents().len() <= oldroot.contents().len() + 1);
        }
        let work = work.relabel(1);
        self.root = work;
        self.count = self.count + 1;
        proof {
            assert(self.root.contents().count((key, value@)) > 0);
            self.root.lemma_contents_lookup(
                lo,
                hi,
                order as int,
                order as int,
                (key, value@),
            );
        }
    }

    /// One full fix-up pass over the whole tree: it scans every node for
    /// overflow, shape, key-order, separator and occupancy violations, and
    /// on a report it splits an over-full root and recomputes every depth
    /// label from the root (deeper repairs are the insertion path's own
    /// duty, so the scan is what remains of them here). On a tree whose
    /// invariant holds — and `insert` always leaves one — the scan finds
    /// nothing and the pass changes nothing: the fix-up is idempotent.
    pub fn fix_up(&mut self)
        requires
            old(self).inv(),
        ensures
            *final(self) == *old(self),
    {
        let ghost lo: int = -1;
        let ghost hi: int = 0x1_0000_0000;
        let order = self.order;
        let needs_repair = self.root.scan_repairs(order, Ghost(lo), Ghost(hi));
        if needs_repair {
            // split the root if over-full and recompute every label; a
            // sound tree never reaches this arm
            let mut work = Node { entries: Vec::new(), depth: 1, children: Vec::new() };
            core::mem::swap(&mut work, &mut self.root);
            let work = if work.entries.len() > order {
                work.split(order, Ghost(lo), Ghost(hi))
            } else {
                work
            };
            let work = work.relabel(1);
            self.root = work;
        }
    }
}

impl Tree {
    /// Depth-first traversal of a fully fixed-up tree: every stored
    /// (key, value) pair, each node's entries before its children's. The
    /// result carries exactly the tree's contents.
    pub fn collect_pairs(&self) -> (r: Vec<(u32, String)>)
        requires
            self.inv(),
        ensures
            row_pairs(r@).to_multiset() == self.root.contents(),
            r@.len() == self.root.contents().len(),
    {
        let mut out: Vec<(u32, String)> = Vec::new();
        proof {
            assert(row_pairs(out@) =~= Seq::<(u32, Seq<char>)>::empty());
            vstd::multiset::lemma_multiset_empty_len(row_pairs(out@).to_multiset());
            assert(row_pairs(out@).to_multiset().len() == 0);
            assert(row_pairs(out@).to_multiset() =~= Multiset::<(u32, Seq<char>)>::empty());
        }
        self.root.collect_into(&mut out);
        proof {
            assert(Multiset::<(u32, Seq<char>)>::empty().add(self.root.contents())
                =~= self.root.contents());
            assert(row_pairs(out@).len() == out@.len());
        }
        out
    }

    /// The aggregate pass over a fully fixed-up tree: total nodes, height,
    /// total keys, leaf count and internal count, each exactly the
    /// mathematical figure over the root's subtree.
    pub fn stats(&self) -> (r: TreeStats)
        requires
            self.inv(),
            self.count < u64::MAX,
        ensures
            r.total_nodes == self.root.node_count(),
            r.height == self.root.height_of(),
            r.total_keys == self.root.contents().len(),
            r.leaf_nodes == self.root.leaf_count(),
            r.internal_nodes == self.root.node_count() - self.root.leaf_count(),
    {
        let ghost lo: int = -1;
        let ghost hi: int = 0x1_0000_0000;
        proof {
            lemma_stats_bounded(self.root, lo, hi, self.order as int, self.order as int);
        }
        let (nodes, height, keys, leaves) = self.root.measure(self.order, Ghost(lo), Ghost(hi));
        TreeStats {
            total_nodes: nodes,
            height,
            total_keys: keys,
            leaf_nodes: leaves,
            internal_nodes: nodes - leaves,
        }
    }
}

} // verus!
