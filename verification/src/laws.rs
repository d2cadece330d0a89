use vstd::prelude::*;
use crate::node::{Node, depth_ok, sep_lo, sep_hi};
use crate::tree::Tree;

verus! {

/// `m` is a node of the subtree rooted at `n` (possibly `n` itself).
pub open spec fn in_subtree(m: Node, n: Node) -> bool
    decreases n,
{
    m == n || exists|i: int| #![trigger n.children@[i]]
        0 <= i < n.children@.len() && in_subtree(m, n.children@[i])
}

/// Every node of a sound subtree is locally sound: its keys ascend
/// strictly, it is a leaf or has exactly one more child than entries, it
/// holds at most `order` entries, any node below the top holds at least
/// `order / 2`, and each child subtree's keys sit strictly between the
/// separators adjacent to it.
pub proof fn lemma_subtree_inv(n: Node, lo: int, hi: int, order: int, m: Node)
    requires
        n.inv(lo, hi, order),
        in_subtree(m, n),
    ensures
        forall|a: int, b: int| #![trigger m.entries@[a], m.entries@[b]]
            0 <= a < b < m.entries@.len() ==> m.entries@[a].key < m.entries@[b].key,
        m.children@.len() == 0 || m.children@.len() == m.entries@.len() + 1,
        m.entries@.len() <= order,
        m == n || m.entries@.len() >= order / 2,
        forall|i: int, p: (u32, Seq<char>)| #![trigger m.children@[i].contents().count(p)]
            0 <= i < m.children@.len() && m.children@[i].contents().count(p) > 0 ==> {
                &&& (i > 0 ==> m.entries@[i - 1].key < p.0)
                &&& (i < m.entries@.len() ==> p.0 < m.entries@[i].key)
            },
    decreases n,
{
    if m == n {
        let es = n.entries@;
        let cs = n.children@;
        assert forall|i: int, p: (u32, Seq<char>)| #![trigger m.children@[i].contents().count(p)]
            0 <= i < m.children@.len() && m.children@[i].contents().count(p) > 0 implies {
                &&& (i > 0 ==> m.entries@[i - 1].key < p.0)
                &&& (i < m.entries@.len() ==> p.0 < m.entries@[i].key)
            } by {
            cs[i].lemma_contents_bounded(sep_lo(es, i, lo), sep_hi(es, i, hi), order, order);
        }
    } else {
        let i = choose|i: int| #![trigger n.children@[i]]
            0 <= i < n.children@.len() && in_subtree(m, n.children@[i]);
        let c = n.children@[i];
        lemma_subtree_inv(c, sep_lo(n.entries@, i, lo), sep_hi(n.entries@, i, hi), order, m);
        if m == c {
            assert(m.entries@.len() >= order / 2);
        }
    }
}

/// Every node of a depth-consistent subtree is locally consistent: its
/// entries carry their node's label and each child is labeled one deeper.
pub proof fn lemma_subtree_depth(n: Node, d: int, m: Node)
    requires
        depth_ok(n, d),
        in_subtree(m, n),
    ensures
        forall|j: int| #![trigger m.entries@[j]]
            0 <= j < m.entries@.len() ==> m.entries@[j].depth == m.depth,
        forall|i: int| #![trigger m.children@[i]]
            0 <= i < m.children@.len() ==> m.children@[i].depth as int == m.depth as int + 1,
    decreases n,
{
    if m == n {
        assert forall|i: int| #![trigger m.children@[i]]
            0 <= i < m.children@.len() implies m.children@[i].depth as int == m.depth as int
                + 1 by {
            assert(depth_ok(m.children@[i], d + 1));
        }
    } else {
        let i = choose|i: int| #![trigger n.children@[i]]
            0 <= i < n.children@.len() && in_subtree(m, n.children@[i]);
        lemma_subtree_depth(n.children@[i], d + 1, m);
    }
}

/// Ordering: in every node of the tree, keys ascend strictly.
pub proof fn lemma_ordering(t: Tree, m: Node)
    requires
        t.inv(),
        in_subtree(m, t.root),
    ensures
        forall|a: int, b: int| #![trigger m.entries@[a], m.entries@[b]]
            0 <= a < b < m.entries@.len() ==> m.entries@[a].key < m.entries@[b].key,
{
    lemma_subtree_inv(t.root, -1, 0x1_0000_0000, t.order as int, m);
}

/// Shape: every node of the tree is a leaf or has exactly one more child
/// than entries.
pub proof fn lemma_shape(t: Tree, m: Node)
    requires
        t.inv(),
        in_subtree(m, t.root),
    ensures
        m.children@.len() == 0 || m.children@.len() == m.entries@.len() + 1,
{
    lemma_subtree_inv(t.root, -1, 0x1_0000_0000, t.order as int, m);
}

/// Capacity: no node of the tree holds more than `order` entries.
pub proof fn lemma_capacity(t: Tree, m: Node)
    requires
        t.inv(),
        in_subtree(m, t.root),
    ensures
        m.entries@.len() <= t.order,
{
    lemma_subtree_inv(t.root, -1, 0x1_0000_0000, t.order as int, m);
}

/// Occupancy: every node strictly below the root holds at least
/// `order / 2` entries; only the root is exempt.
pub proof fn lemma_occupancy(t: Tree, m: Node, i: int)
    requires
        t.inv(),
        0 <= i < t.root.children@.len(),
        in_subtree(m, t.root.children@[i]),
    ensures
        m.entries@.len() >= t.order / 2,
{
    let c = t.root.children@[i];
    assert(c.inv(
        sep_lo(t.root.entries@, i, -1),
        sep_hi(t.root.entries@, i, 0x1_0000_0000),
        t.order as int,
    ));
    lemma_subtree_inv(
        c,
        sep_lo(t.root.entries@, i, -1),
        sep_hi(t.root.entries@, i, 0x1_0000_0000),
        t.order as int,
        m,
    );
    if m == c {
        assert(m.entries@.len() >= t.order / 2);
    }
}

/// Separator containment: every key stored under a node's child `i` lies
/// strictly between the separator entries adjacent to that child, and is
/// unbounded at the two extremes.
pub proof fn lemma_separator_containment(t: Tree, m: Node, i: int, p: (u32, Seq<char>))
    requires
        t.inv(),
        in_subtree(m, t.root),
        0 <= i < m.children@.len(),
        m.children@[i].contents().count(p) > 0,
    ensures
        i > 0 ==> m.entries@[i - 1].key < p.0,
        i < m.entries@.len() ==> p.0 < m.entries@[i].key,
{
    lemma_subtree_inv(t.root, -1, 0x1_0000_0000, t.order as int, m);
}

/// Depth consistency: every node's entries carry their node's label and
/// every child is labeled one deeper than its parent; the root is labeled 1.
pub proof fn lemma_depth_consistency(t: Tree, m: Node)
    requires
        t.inv(),
        in_subtree(m, t.root),
    ensures
        t.root.depth == 1,
        forall|j: int| #![trigger m.entries@[j]]
            0 <= j < m.entries@.len() ==> m.entries@[j].depth == m.depth,
        forall|i: int| #![trigger m.children@[i]]
            0 <= i < m.children@.len() ==> m.children@[i].depth as int == m.depth as int + 1,
{
    lemma_subtree_depth(t.root, 1, m);
}

/// Membership: every pair the tree stores is reached by the descent rule —
/// in particular every key just inserted, since `insert` guarantees that
/// the pair is stored.
pub proof fn lemma_membership(t: Tree, p: (u32, Seq<char>))
    requires
        t.inv(),
        t.root.contents().count(p) > 0,
    ensures
        t.root.lookup(p.0) == Option::Some(p.1),
{
    t.root.lemma_contents_lookup(-1, 0x1_0000_0000, t.order as int, t.order as int, p);
}

} // verus!
