use vstd::prelude::*;
use vstd::multiset::Multiset;

verus! {

broadcast use vstd::seq_lib::group_to_multiset_ensures, vstd::multiset::group_multiset_axioms;

/// One key/value pair stored in a node. `depth` is a denormalized copy of
/// the owning node's depth label, rewritten by every depth-correction pass;
/// it never takes part in ordering or placement.
#[derive(Clone, PartialEq, Debug)]
pub struct Entry {
    pub key: u32,
    pub value: String,
    pub depth: u64,
}

/// A node of the multiway search tree: an ordered run of entries, a depth
/// label (root = 1, child = parent + 1), and the children this node
/// exclusively owns.
pub struct Node {
    pub entries: Vec<Entry>,
    pub depth: u64,
    pub children: Vec<Node>,
}

/// The lower bound of child `i`'s key range: the separator entry to its
/// left, or the subtree's own lower bound for the first child.
pub open spec fn sep_lo(es: Seq<Entry>, i: int, lo: int) -> int {
    if i <= 0 {
        lo
    } else {
        es[i - 1].key as int
    }
}

/// The upper bound of child `i`'s key range: the separator entry to its
/// right, or the subtree's own upper bound for the last child.
pub open spec fn sep_hi(es: Seq<Entry>, i: int, hi: int) -> int {
    if i >= es.len() {
        hi
    } else {
        es[i].key as int
    }
}

/// The (key, value) pairs of an entry sequence, as mathematical values.
pub open spec fn entry_pairs(es: Seq<Entry>) -> Seq<(u32, Seq<char>)> {
    es.map_values(|e: Entry| (e.key, e.value@))
}

/// The multiset of (key, value) pairs an entry sequence holds.
pub open spec fn entries_ms(es: Seq<Entry>) -> Multiset<(u32, Seq<char>)> {
    entry_pairs(es).to_multiset()
}

/// The multiset of (key, value) pairs held by the subtrees `cs[i..]`.
pub open spec fn children_contents_from(cs: Seq<Node>, i: int) -> Multiset<(u32, Seq<char>)>
    decreases cs, cs.len() - i,
{
    if 0 <= i < cs.len() {
        cs[i].contents().add(children_contents_from(cs, i + 1))
    } else {
        Multiset::empty()
    }
}

/// The index of the first entry whose key is at or past `key`, scanning from
/// `j`. With sorted entries this is the descent rule's child index: keys
/// below every entry give 0, keys above every entry give `es.len()`, and a
/// key strictly between two adjacent entries gives the index between them.
pub open spec fn first_ge(es: Seq<Entry>, key: u32, j: int) -> int
    decreases es.len() - j,
{
    if !(0 <= j < es.len()) {
        j
    } else if es[j].key >= key {
        j
    } else {
        first_ge(es, key, j + 1)
    }
}

/// Depth labels are consistent below this node: the node is labeled `d`,
/// every entry carries its node's label, and every child is labeled `d + 1`,
/// recursively.
pub open spec fn depth_ok(n: Node, d: int) -> bool
    decreases n,
{
    &&& n.depth as int == d
    &&& forall|j: int| #![trigger n.entries@[j]] 0 <= j < n.entries@.len() ==> n.entries@[j].depth as int == d
    &&& forall|i: int| #![trigger n.children@[i]] 0 <= i < n.children@.len() ==> depth_ok(n.children@[i], d + 1)
}

impl Node {
    /// Invariant 1 and the separator bounds handed down by the parent: keys
    /// strictly ascending, every key strictly inside the open interval
    /// (lo, hi).
    pub open spec fn entries_ok(self, lo: int, hi: int) -> bool {
        let es = self.entries@;
        &&& forall|a: int, b: int| #![trigger es[a], es[b]]
            0 <= a < b < es.len() ==> es[a].key < es[b].key
        &&& forall|a: int| #![trigger es[a]]
            0 <= a < es.len() ==> lo < (es[a].key as int) && (es[a].key as int) < hi
    }

    /// The structural invariant of the subtree rooted here, between the
    /// separators `lo` and `hi`: ordering, shape (a leaf, or exactly one
    /// more child than entries, and never an entry-less internal node),
    /// separator containment, capacity (`cap` entries at this node, `order`
    /// at every node below), and minimum occupancy `order / 2` for every
    /// node below this one. The top node's occupancy is its parent's
    /// concern, so the root is exempt, as required.
    pub open spec fn inv_cap(self, lo: int, hi: int, order: int, cap: int) -> bool
        decreases self,
    {
        let es = self.entries@;
        let cs = self.children@;
        &&& self.entries_ok(lo, hi)
        &&& es.len() <= cap
        &&& (cs.len() == 0 || cs.len() == es.len() + 1)
        &&& (cs.len() != 0 ==> es.len() >= 1)
        &&& forall|i: int| #![trigger cs[i]]
            0 <= i < cs.len() ==> cs[i].inv_cap(
                sep_lo(es, i, lo),
                sep_hi(es, i, hi),
                order,
                order,
            )
        &&& forall|i: int| #![trigger cs[i]] 0 <= i < cs.len() ==> cs[i].entries@.len() >= order / 2
    }

    /// The invariant with the regular capacity at the top node as well.
    pub open spec fn inv(self, lo: int, hi: int, order: int) -> bool {
        self.inv_cap(lo, hi, order, order)
    }

    /// Every (key, value) pair stored in the subtree rooted at this node.
    pub open spec fn contents(self) -> Multiset<(u32, Seq<char>)>
        decreases self, 0int,
    {
        entries_ms(self.entries@).add(children_contents_from(self.children@, 0))
    }

    /// The value the descent rule reaches for `key`, if any: a matching
    /// entry at the current node wins, otherwise the search follows the
    /// unique child whose key range contains `key`.
    pub open spec fn lookup(self, key: u32) -> Option<Seq<char>>
        decreases self,
    {
        let es = self.entries@;
        let i = first_ge(es, key, 0);
        if 0 <= i < es.len() && es[i].key == key {
            Option::Some(es[i].value@)
        } else if self.children@.len() == 0 {
            Option::None
        } else if 0 <= i < self.children@.len() {
            self.children@[i].lookup(key)
        } else {
            Option::None
        }
    }

    /// The contents after writing `value` under `key`: a fresh key adds one
    /// pair, an existing key keeps a single pair with its value replaced.
    pub open spec fn contents_after(self, key: u32, value: Seq<char>) -> Multiset<(u32, Seq<char>)> {
        match self.lookup(key) {
            Option::None => self.contents().insert((key, value)),
            Option::Some(w) => self.contents().remove((key, w)).insert((key, value)),
        }
    }

    /// No internal node is entry-less, at any level. This is the part of the
    /// invariant that bounds every depth label by the number of stored pairs.
    pub open spec fn min_filled(self) -> bool
        decreases self,
    {
        &&& (self.children@.len() != 0 ==> self.entries@.len() >= 1)
        &&& forall|i: int| #![trigger self.children@[i]] 0 <= i < self.children@.len() ==> self.children@[i].min_filled()
    }
}

/// `entry_pairs` maps pointwise, so it commutes with `insert`.
pub proof fn lemma_ems_insert(es: Seq<Entry>, i: int, e: Entry)
    requires
        0 <= i <= es.len(),
    ensures
        entries_ms(es.insert(i, e)) == entries_ms(es).insert((e.key, e.value@)),
{
    assert(entry_pairs(es.insert(i, e)) =~= entry_pairs(es).insert(i, (e.key, e.value@)));
    assert(entries_ms(es.insert(i, e)) =~= entries_ms(es).insert((e.key, e.value@)));
}

/// `entry_pairs` maps pointwise, so it commutes with `remove`.
pub proof fn lemma_ems_remove(es: Seq<Entry>, i: int)
    requires
        0 <= i < es.len(),
    ensures
        entries_ms(es.remove(i)) == entries_ms(es).remove((es[i].key, es[i].value@)),
{
    assert(entry_pairs(es.remove(i)) =~= entry_pairs(es).remove(i));
    assert(entry_pairs(es)[i] == (es[i].key, es[i].value@));
    assert(entries_ms(es.remove(i)) =~= entries_ms(es).remove((es[i].key, es[i].value@)));
}

/// Two child runs that agree element for element hold the same pairs.
pub proof fn lemma_ccf_congruent(cs1: Seq<Node>, cs2: Seq<Node>, j1: int, j2: int)
    requires
        0 <= j1 <= cs1.len(),
        0 <= j2 <= cs2.len(),
        cs1.len() - j1 == cs2.len() - j2,
        forall|k: int| #![trigger cs1[j1 + k]]
            0 <= k < cs1.len() - j1 ==> cs1[j1 + k] == cs2[j2 + k],
    ensures
        children_contents_from(cs1, j1) == children_contents_from(cs2, j2),
    decreases cs1.len() - j1,
{
    if j1 < cs1.len() {
        assert(cs1[j1 + 0] == cs2[j2 + 0]);
        assert forall|k: int| #![trigger cs1[j1 + 1 + k]]
            0 <= k < cs1.len() - (j1 + 1) implies cs1[j1 + 1 + k] == cs2[j2 + 1 + k] by {
            assert(cs1[j1 + (k + 1)] == cs2[j2 + (k + 1)]);
        }
        lemma_ccf_congruent(cs1, cs2, j1 + 1, j2 + 1);
    }
}

/// Inserting a subtree into the child run adds exactly its pairs.
pub proof fn lemma_ccf_insert(cs: Seq<Node>, i: int, x: Node, j: int)
    requires
        0 <= j <= i <= cs.len(),
    ensures
        children_contents_from(cs.insert(i, x), j) == children_contents_from(cs, j).add(
            x.contents(),
        ),
    decreases i - j,
{
    let cs2 = cs.insert(i, x);
    if j == i {
        assert(cs2[i] == x);
        assert forall|k: int| #![trigger cs2[i + 1 + k]]
            0 <= k < cs2.len() - (i + 1) implies cs2[i + 1 + k] == cs[i + k] by {
        }
        lemma_ccf_congruent(cs2, cs, i + 1, i);
        assert(children_contents_from(cs2, i) == x.contents().add(
            children_contents_from(cs, i),
        ));
        assert(x.contents().add(children_contents_from(cs, i)) =~= children_contents_from(
            cs,
            i,
        ).add(x.contents()));
    } else {
        lemma_ccf_insert(cs, i, x, j + 1);
        assert(cs2[j] == cs[j]);
        assert(cs[j].contents().add(children_contents_from(cs, j + 1).add(x.contents()))
            =~= cs[j].contents().add(children_contents_from(cs, j + 1)).add(x.contents()));
    }
}

/// Removing a subtree from the child run takes away exactly its pairs.
pub proof fn lemma_ccf_remove(cs: Seq<Node>, i: int, j: int)
    requires
        0 <= j <= i < cs.len(),
    ensures
        children_contents_from(cs, j) == children_contents_from(cs.remove(i), j).add(
            cs[i].contents(),
        ),
    decreases i - j,
{
    let cs2 = cs.remove(i);
    if j == i {
        assert forall|k: int| #![trigger cs2[i + k]]
            0 <= k < cs2.len() - i implies cs2[i + k] == cs[i + 1 + k] by {
        }
        lemma_ccf_congruent(cs2, cs, i, i + 1);
        assert(children_contents_from(cs, i) == cs[i].contents().add(
            children_contents_from(cs, i + 1),
        ));
        assert(cs[i].contents().add(children_contents_from(cs, i + 1))
            =~= children_contents_from(cs, i + 1).add(cs[i].contents()));
    } else {
        lemma_ccf_remove(cs, i, j + 1);
        assert(cs2[j] == cs[j]);
        assert(cs[j].contents().add(children_contents_from(cs2, j + 1).add(cs[i].contents()))
            =~= cs[j].contents().add(children_contents_from(cs2, j + 1)).add(cs[i].contents()));
    }
}

/// The pairs of a child run split at `m` into the pairs of its two halves.
pub proof fn lemma_ccf_split(cs: Seq<Node>, m: int, j: int)
    requires
        0 <= j <= m <= cs.len(),
    ensures
        children_contents_from(cs, j) == children_contents_from(cs.subrange(0, m), j).add(
            children_contents_from(cs, m),
        ),
    decreases m - j,
{
    let pre = cs.subrange(0, m);
    if j == m {
        assert(children_contents_from(pre, m) == Multiset::<(u32, Seq<char>)>::empty());
        assert(Multiset::<(u32, Seq<char>)>::empty().add(children_contents_from(cs, m))
            =~= children_contents_from(cs, m));
    } else {
        lemma_ccf_split(cs, m, j + 1);
        assert(pre[j] == cs[j]);
        assert(cs[j].contents().add(children_contents_from(pre, j + 1).add(
            children_contents_from(cs, m),
        )) =~= cs[j].contents().add(children_contents_from(pre, j + 1)).add(
            children_contents_from(cs, m),
        ));
    }
}

/// A pair counted by the child run is counted by one of its subtrees.
pub proof fn lemma_ccf_contains(cs: Seq<Node>, j: int, p: (u32, Seq<char>))
    requires
        0 <= j <= cs.len(),
        children_contents_from(cs, j).count(p) > 0,
    ensures
        exists|i: int|
            j <= i < cs.len() && #[trigger] cs[i].contents().count(p) > 0,
    decreases cs.len() - j,
{
    if j < cs.len() {
        if cs[j].contents().count(p) > 0 {
        } else {
            lemma_ccf_contains(cs, j + 1, p);
        }
    }
}

/// Each subtree's pair count is below the whole run's.
pub proof fn lemma_ccf_count_ge(cs: Seq<Node>, i: int, j: int, p: (u32, Seq<char>))
    requires
        0 <= j <= i < cs.len(),
    ensures
        children_contents_from(cs, j).count(p) >= cs[i].contents().count(p),
    decreases i - j,
{
    if j < i {
        lemma_ccf_count_ge(cs, i, j + 1, p);
    }
}

/// Each subtree holds at most as many pairs as the whole run.
pub proof fn lemma_ccf_len_ge(cs: Seq<Node>, i: int, j: int)
    requires
        0 <= j <= i < cs.len(),
    ensures
        children_contents_from(cs, j).len() >= cs[i].contents().len(),
    decreases i - j,
{
    if j < i {
        lemma_ccf_len_ge(cs, i, j + 1);
    }
}

/// The scan for the first entry at or past `key` lands between `j` and the
/// end, behind only smaller keys, and on a key at or past `key` if any.
pub proof fn lemma_first_ge(es: Seq<Entry>, key: u32, j: int)
    requires
        0 <= j <= es.len(),
    ensures
        j <= first_ge(es, key, j) <= es.len(),
        forall|m: int| #![trigger es[m]] j <= m < first_ge(es, key, j) ==> es[m].key < key,
        first_ge(es, key, j) < es.len() ==> es[first_ge(es, key, j)].key >= key,
    decreases es.len() - j,
{
    if j < es.len() && es[j].key < key {
        lemma_first_ge(es, key, j + 1);
    }
}

impl Node {
    /// Whatever the descent rule returns for a key is stored in the subtree.
    pub proof fn lemma_lookup_contents(self, key: u32)
        ensures
            match self.lookup(key) {
                Option::Some(w) => self.contents().count((key, w)) > 0,
                Option::None => true,
            },
        decreases self,
    {
        let es = self.entries@;
        let cs = self.children@;
        let i = first_ge(es, key, 0);
        if 0 <= i < es.len() && es[i].key == key {
            assert(entry_pairs(es)[i] == (es[i].key, es[i].value@));
            assert(entry_pairs(es).contains((key, es[i].value@)));
        } else if cs.len() != 0 && 0 <= i < cs.len() {
            cs[i].lemma_lookup_contents(key);
            if cs[i].lookup(key) is Some {
                let w = cs[i].lookup(key)->Some_0;
                lemma_ccf_count_ge(cs, i, 0, (key, w));
            }
        }
    }

    /// Every pair a sound subtree stores has its key strictly inside the
    /// subtree's separator bounds.
    pub proof fn lemma_contents_bounded(self, lo: int, hi: int, order: int, cap: int)
        requires
            self.inv_cap(lo, hi, order, cap),
        ensures
            forall|p: (u32, Seq<char>)| #![trigger self.contents().count(p)]
                self.contents().count(p) > 0 ==> lo < (p.0 as int) && (p.0 as int) < hi,
        decreases self,
    {
        let es = self.entries@;
        let cs = self.children@;
        assert forall|p: (u32, Seq<char>)|
            self.contents().count(p) > 0 implies lo < (p.0 as int) && (p.0 as int) < hi by {
            if entries_ms(es).count(p) > 0 {
                assert(entry_pairs(es).contains(p));
                let j = choose|j: int| 0 <= j < es.len() && entry_pairs(es)[j] == p;
                assert(es[j].key == p.0);
            } else {
                assert(children_contents_from(cs, 0).count(p) > 0);
                lemma_ccf_contains(cs, 0, p);
                let i = choose|i: int|
                    0 <= i < cs.len() && #[trigger] cs[i].contents().count(p) > 0;
                cs[i].lemma_contents_bounded(
                    sep_lo(es, i, lo),
                    sep_hi(es, i, hi),
                    order,
                    order,
                );
                if i > 0 {
                    assert(es[i - 1].key as int > lo);
                }
                if i < es.len() {
                    assert((es[i].key as int) < hi);
                }
            }
        }
    }

    /// Any pair a sound subtree stores is found by the descent rule: the
    /// separator discipline routes its key back to wherever it sits.
    pub proof fn lemma_contents_lookup(self, lo: int, hi: int, order: int, cap: int, p: (u32, Seq<char>))
        requires
            self.inv_cap(lo, hi, order, cap),
            self.contents().count(p) > 0,
        ensures
            self.lookup(p.0) == Option::Some(p.1),
        decreases self,
    {
        let es = self.entries@;
        let cs = self.children@;
        let key = p.0;
        let i = first_ge(es, key, 0);
        lemma_first_ge(es, key, 0);
        if entries_ms(es).count(p) > 0 {
            assert(entry_pairs(es).contains(p));
            let j = choose|j: int| 0 <= j < es.len() && entry_pairs(es)[j] == p;
            assert(es[j].key == key && es[j].value@ == p.1);
            if i < j {
                assert(es[i].key < es[j].key);
                assert(false);
            }
            if j < i {
                assert(es[j].key < key);
                assert(false);
            }
            assert(i == j);
        } else {
            assert(children_contents_from(cs, 0).count(p) > 0);
            lemma_ccf_contains(cs, 0, p);
            let c = choose|c: int|
                0 <= c < cs.len() && #[trigger] cs[c].contents().count(p) > 0;
            cs[c].lemma_contents_bounded(
                sep_lo(es, c, lo),
                sep_hi(es, c, hi),
                order,
                order,
            );
            assert(sep_lo(es, c, lo) < key as int && (key as int) < sep_hi(es, c, hi));
            if i < c {
                assert(i < es.len());
                assert(es[i].key >= key);
                assert(es[i].key <= es[c - 1].key);
                assert((es[c - 1].key as int) < key as int);
                assert(false);
            }
            if c < i {
                assert(c < es.len());
                assert(es[c].key < key);
                assert((key as int) < es[c].key as int);
                assert(false);
            }
            assert(i == c);
            if i < es.len() {
                assert((key as int) < es[i].key as int);
                assert(es[i].key != key);
            }
            cs[c].lemma_contents_lookup(
                sep_lo(es, c, lo),
                sep_hi(es, c, hi),
                order,
                order,
                p,
            );
        }
    }
}

/// The index of the first entry whose key is at or past `key`; with sorted
/// entries, the descent rule's child index.
fn find_ge(entries: &Vec<Entry>, key: u32) -> (i: usize)
    ensures
        i <= entries@.len(),
        i as int == first_ge(entries@, key, 0),
{
    let mut j: usize = 0;
    while j < entries.len()
        invariant
            j <= entries@.len(),
            first_ge(entries@, key, 0) == first_ge(entries@, key, j as int),
        decreases entries@.len() - j,
    {
        if entries[j].key >= key {
            return j;
        }
        j += 1;
    }
    j
}

impl Node {
    /// Splits an over-full node around its median, the entry at position
    /// ceil((n + 1) / 2) of the sorted run, counting from 1 — index
    /// `n / 2` of the run. Only that entry stays; the entries before it
    /// populate a fresh left child, the entries after it a fresh right
    /// child, and the children this node already owned are redistributed
    /// under the pair by key range: the first `n / 2 + 1` go left of the
    /// median, the rest right of it. The node keeps every pair it held and
    /// comes out with one entry and two children, each at least half full.
    ///
    /// A node overflows by one entry at a time — placement adds one, and an
    /// absorption lifts exactly one median — so an over-full node holds
    /// exactly `order + 1` entries when the split fires. Both halves keep
    /// the node's own depth label: every insertion ends by recomputing all
    /// labels from the root, which settles them one level deeper.
    #[verifier::rlimit(100)]
    #[verifier::spinoff_prover]
    pub fn split(self, order: usize, Ghost(lo): Ghost<int>, Ghost(hi): Ghost<int>) -> (r: Node)
        requires
            self.inv_cap(lo, hi, order as int, order as int + 1),
            self.entries@.len() == order + 1,
            order >= 2,
        ensures
            r.inv(lo, hi, order as int),
            r.entries@.len() == 1,
            r.children@.len() == 2,
            r.contents() == self.contents(),
            r.depth == self.depth,
            r.entries@[0] == self.entries@[self.entries@.len() as int / 2],
            r.children@[0].depth == self.depth,
            r.children@[1].depth == self.depth,
            r.children@[0].entries@ == self.entries@.subrange(0, self.entries@.len() as int / 2),
            r.children@[1].entries@ == self.entries@.subrange(
                self.entries@.len() as int / 2 + 1,
                self.entries@.len() as int,
            ),
            self.children@.len() == 0 ==> r.children@[0].children@.len() == 0
                && r.children@[1].children@.len() == 0,
            self.children@.len() != 0 ==> r.children@[0].children@ == self.children@.subrange(
                0,
                self.entries@.len() as int / 2 + 1,
            ) && r.children@[1].children@ == self.children@.subrange(
                self.entries@.len() as int / 2 + 1,
                self.children@.len() as int,
            ),
    {
        let Node { mut entries, depth, mut children } = self;
        let ghost es0 = entries@;
        let ghost cs0 = children@;
        let n_len = entries.len();
        let m = n_len / 2 + 1;
        proof {
            assert(m as int == (es0.len() + 2) / 2);
            assert(2 <= m && m <= n_len - 1);
        }
        let mut left_entries: Vec<Entry> = Vec::new();
        let mut j: usize = 0;
        while j < m - 1
            invariant
                j <= m - 1,
                3 <= es0.len(),
                m == (es0.len() + 2) / 2,
                m <= es0.len(),
                entries@ == es0.subrange(j as int, es0.len() as int),
                left_entries@ == es0.subrange(0, j as int),
            decreases m - 1 - j,
        {
            let e = entries.remove(0);
            proof {
                assert(e == es0[j as int]);
                assert(entries@ =~= es0.subrange(j as int + 1, es0.len() as int));
                assert(left_entries@.push(e) =~= es0.subrange(0, j as int + 1));
            }
            left_entries.push(e);
            j += 1;
        }
        let median = entries.remove(0);
        proof {
            assert(median == es0[m - 1]);
            assert(entries@ =~= es0.subrange(m as int, es0.len() as int));
        }
        let right_entries = entries;
        let mut left_children: Vec<Node> = Vec::new();
        let has_kids = children.len() > 0;
        if has_kids {
            let mut j2: usize = 0;
            while j2 < m
                invariant
                    j2 <= m,
                    m < cs0.len(),
                    children@ == cs0.subrange(j2 as int, cs0.len() as int),
                    left_children@ == cs0.subrange(0, j2 as int),
                decreases m - j2,
            {
                let c = children.remove(0);
                proof {
                    assert(c == cs0[j2 as int]);
                    assert(children@ =~= cs0.subrange(j2 as int + 1, cs0.len() as int));
                    assert(left_children@.push(c) =~= cs0.subrange(0, j2 as int + 1));
                }
                left_children.push(c);
                j2 += 1;
            }
        }
        let right_children = children;
        let left = Node { entries: left_entries, depth, children: left_children };
        let right = Node { entries: right_entries, depth, children: right_children };
        let mut new_entries: Vec<Entry> = Vec::new();
        new_entries.push(median);
        let mut new_children: Vec<Node> = Vec::new();
        new_children.push(left);
        new_children.push(right);
        let r = Node { entries: new_entries, depth, children: new_children };
        proof {
            let n = es0.len() as int;
            let mi = m as int;
            let les = es0.subrange(0, mi - 1);
            let res = es0.subrange(mi, n);
            let med = es0[mi - 1].key as int;
            let lf = r.children@[0];
            let rt = r.children@[1];
            assert(lf == left && rt == right);
            // --- the halves inherit capacity and occupancy ---
            assert(mi - 1 >= order as int / 2);
            assert(n - mi >= order as int / 2);
            // --- the halves are sound between their separator bounds ---
            assert(left.entries_ok(lo, med));
            assert(right.entries_ok(med, hi));
            if has_kids {
                assert(cs0.len() == n + 1);
                assert forall|i: int| #![trigger left.children@[i]]
                    0 <= i < left.children@.len() implies left.children@[i].inv_cap(
                        sep_lo(left.entries@, i, lo),
                        sep_hi(left.entries@, i, med),
                        order as int,
                        order as int,
                    ) && left.children@[i].entries@.len() >= order as int / 2 by {
                    assert(left.children@[i] == cs0[i]);
                    assert(cs0[i].inv_cap(
                        sep_lo(es0, i, lo),
                        sep_hi(es0, i, hi),
                        order as int,
                        order as int,
                    ));
                    assert(sep_lo(left.entries@, i, lo) == sep_lo(es0, i, lo));
                    assert(sep_hi(left.entries@, i, med) == sep_hi(es0, i, hi));
                }
                assert forall|i: int| #![trigger right.children@[i]]
                    0 <= i < right.children@.len() implies right.children@[i].inv_cap(
                        sep_lo(right.entries@, i, med),
                        sep_hi(right.entries@, i, hi),
                        order as int,
                        order as int,
                    ) && right.children@[i].entries@.len() >= order as int / 2 by {
                    assert(right.children@[i] == cs0[mi + i]);
                    assert(cs0[mi + i].inv_cap(
                        sep_lo(es0, mi + i, lo),
                        sep_hi(es0, mi + i, hi),
                        order as int,
                        order as int,
                    ));
                    assert(sep_lo(right.entries@, i, med) == sep_lo(es0, mi + i, lo));
                    assert(sep_hi(right.entries@, i, hi) == sep_hi(es0, mi + i, hi));
                }
            }
            assert(left.inv(lo, med, order as int));
            assert(right.inv(med, hi, order as int));
            // --- the node around them is sound ---
            assert(r.entries@ =~= seq![es0[mi - 1]]);
            assert(sep_hi(r.entries@, 0, hi) == med);
            assert(sep_lo(r.entries@, 1, lo) == med);
            assert forall|i: int| #![trigger r.children@[i]]
                0 <= i < r.children@.len() implies r.children@[i].inv_cap(
                    sep_lo(r.entries@, i, lo),
                    sep_hi(r.entries@, i, hi),
                    order as int,
                    order as int,
                ) by {
                if i == 0 {
                    assert(r.children@[0] == left);
                } else {
                    assert(r.children@[1] == right);
                }
            }
            assert(r.inv(lo, hi, order as int));
            // --- no pair is gained or lost ---
            assert(es0 =~= (les + seq![es0[mi - 1]]) + res);
            assert(entry_pairs(es0) =~= (entry_pairs(les) + entry_pairs(seq![es0[mi - 1]]))
                + entry_pairs(res));
            vstd::seq_lib::lemma_multiset_commutative(
                entry_pairs(les) + entry_pairs(seq![es0[mi - 1]]),
                entry_pairs(res),
            );
            vstd::seq_lib::lemma_multiset_commutative(
                entry_pairs(les),
                entry_pairs(seq![es0[mi - 1]]),
            );
            assert(entries_ms(es0) == entries_ms(les).add(entries_ms(seq![es0[mi - 1]])).add(
                entries_ms(res),
            ));
            assert(entry_pairs(r.entries@) =~= entry_pairs(seq![es0[mi - 1]]));
            if has_kids {
                lemma_ccf_split(cs0, mi, 0);
                lemma_ccf_congruent(cs0.subrange(mi, cs0.len() as int), cs0, 0, mi);
                assert(left.children@ == cs0.subrange(0, mi));
                assert(right.children@ == cs0.subrange(mi, cs0.len() as int));
                assert(children_contents_from(cs0, 0) == children_contents_from(
                    left.children@,
                    0,
                ).add(children_contents_from(right.children@, 0)));
            } else {
                assert(children_contents_from(cs0, 0) == Multiset::<(u32, Seq<char>)>::empty());
                assert(children_contents_from(left.children@, 0)
                    == Multiset::<(u32, Seq<char>)>::empty());
                assert(children_contents_from(right.children@, 0)
                    == Multiset::<(u32, Seq<char>)>::empty());
            }
            assert(children_contents_from(r.children@, 0) == left.contents().add(
                children_contents_from(r.children@, 1),
            ));
            assert(children_contents_from(r.children@, 1) == right.contents().add(
                children_contents_from(r.children@, 2),
            ));
            assert(children_contents_from(r.children@, 2)
                == Multiset::<(u32, Seq<char>)>::empty());
            assert(r.contents() =~= self.contents());
        }
        r
    }
}

/// A node with one entry and two children holds exactly that entry's pair
/// and its children's pairs.
pub proof fn lemma_contents_one_two(x: Node)
    requires
        x.entries@.len() == 1,
        x.children@.len() == 2,
    ensures
        x.contents() == Multiset::<(u32, Seq<char>)>::empty().insert(
            (x.entries@[0].key, x.entries@[0].value@),
        ).add(x.children@[0].contents()).add(x.children@[1].contents()),
{
    let p = (x.entries@[0].key, x.entries@[0].value@);
    assert(entry_pairs(x.entries@) =~= Seq::<(u32, Seq<char>)>::empty().push(p));
    vstd::multiset::lemma_multiset_empty_len(Seq::<(u32, Seq<char>)>::empty().to_multiset());
    assert(entries_ms(x.entries@) == Multiset::<(u32, Seq<char>)>::empty().insert(p));
    assert(children_contents_from(x.children@, 2) == Multiset::<(u32, Seq<char>)>::empty());
    assert(children_contents_from(x.children@, 1) == x.children@[1].contents().add(
        children_contents_from(x.children@, 2),
    ));
    assert(children_contents_from(x.children@, 0) == x.children@[0].contents().add(
        children_contents_from(x.children@, 1),
    ));
    assert(x.contents() =~= Multiset::<(u32, Seq<char>)>::empty().insert(p).add(
        x.children@[0].contents(),
    ).add(x.children@[1].contents()));
}

/// Replacing one part of a pair pool by that part with `value` written under
/// `key` performs the same write on the whole pool.
pub proof fn lemma_contents_update(
    base: Multiset<(u32, Seq<char>)>,
    oldc: Multiset<(u32, Seq<char>)>,
    newc: Multiset<(u32, Seq<char>)>,
    look: Option<Seq<char>>,
    key: u32,
    value: Seq<char>,
)
    requires
        match look {
            Option::Some(w) => oldc.count((key, w)) > 0 && newc == oldc.remove(
                (key, w),
            ).insert((key, value)),
            Option::None => newc == oldc.insert((key, value)),
        },
    ensures
        match look {
            Option::Some(w) => base.add(newc) == base.add(oldc).remove((key, w)).insert(
                (key, value),
            ),
            Option::None => base.add(newc) == base.add(oldc).insert((key, value)),
        },
{
    match look {
        Option::Some(w) => {
            assert(base.add(newc) =~= base.add(oldc).remove((key, w)).insert((key, value)));
        },
        Option::None => {
            assert(base.add(newc) =~= base.add(oldc).insert((key, value)));
        },
    }
}

/// The absorption step is sound: when the child at the descent index has
/// been rewritten into a one-entry node over two halves carrying the
/// written pairs, lifting that entry into this node and splicing the two
/// halves into the child's slot keeps the structural invariant (one entry
/// over capacity at most) and performs exactly the write on the contents.
#[verifier::rlimit(100)]
#[verifier::spinoff_prover]
pub proof fn lemma_absorb_step(
    n0: Node,
    n1: Node,
    i: int,
    lo: int,
    hi: int,
    order: int,
    key: u32,
    value: Seq<char>,
    c: Node,
    c3: Node,
    med: Entry,
    lft: Node,
    rgt: Node,
)
    requires
        n0.inv(lo, hi, order),
        order >= 2,
        lo < key as int,
        (key as int) < hi,
        i == first_ge(n0.entries@, key, 0),
        !(i < n0.entries@.len() && n0.entries@[i].key == key),
        0 <= i < n0.children@.len(),
        c == n0.children@[i],
        c3.inv(sep_lo(n0.entries@, i, lo), sep_hi(n0.entries@, i, hi), order),
        c3.entries@.len() == 1,
        c3.children@.len() == 2,
        c3.contents() == c.contents_after(key, value),
        med == c3.entries@[0],
        lft == c3.children@[0],
        rgt == c3.children@[1],
        n1.entries@ == n0.entries@.insert(i, med),
        n1.children@ == n0.children@.remove(i).insert(i, rgt).insert(i, lft),
    ensures
        n1.inv_cap(lo, hi, order, order + 1),
        n1.contents() == n0.contents_after(key, value),
{
    let es0 = n0.entries@;
    let cs0 = n0.children@;
    let nes = n1.entries@;
    let ncs = n1.children@;
    let cs1 = cs0.remove(i);
    let cs2 = cs1.insert(i, rgt);
    let slo = sep_lo(es0, i, lo);
    let shi = sep_hi(es0, i, hi);
    lemma_first_ge(es0, key, 0);
    assert(ncs == cs2.insert(i, lft));
    assert(slo < (med.key as int) && (med.key as int) < shi);
    es0.insert_ensures(i, med);
    cs1.insert_ensures(i, rgt);
    cs2.insert_ensures(i, lft);
    // ordering of the grown run
    assert forall|a: int, b: int| #![trigger nes[a], nes[b]]
        0 <= a < b < nes.len() implies nes[a].key < nes[b].key by {
        if a < i {
            assert(nes[a] == es0[a]);
            assert((es0[a].key as int) <= slo);
        } else if a > i {
            assert(nes[(a - 1) + 1] == es0[a - 1]);
            assert(shi <= es0[a - 1].key as int);
        }
        if b < i {
            assert(nes[b] == es0[b]);
            assert((es0[b].key as int) <= slo);
        } else if b > i {
            assert(nes[(b - 1) + 1] == es0[b - 1]);
            assert(shi <= es0[b - 1].key as int);
        }
    }
    assert(n1.entries_ok(lo, hi));
    // every child is sound between the grown run's separators
    assert(ncs.len() == nes.len() + 1);
    assert forall|j: int| #![trigger ncs[j]]
        0 <= j < ncs.len() implies ncs[j].inv_cap(
            sep_lo(nes, j, lo),
            sep_hi(nes, j, hi),
            order,
            order,
        ) && ncs[j].entries@.len() >= order / 2 by {
        if j < i {
            assert(ncs[j] == cs0[j]);
            assert(sep_lo(nes, j, lo) == sep_lo(es0, j, lo));
            assert(sep_hi(nes, j, hi) == sep_hi(es0, j, hi));
        } else if j == i {
            assert(ncs[j] == lft);
            assert(sep_lo(nes, j, lo) == slo);
            assert(sep_hi(nes, j, hi) == med.key as int);
            assert(lft.inv_cap(
                sep_lo(c3.entries@, 0, slo),
                sep_hi(c3.entries@, 0, shi),
                order,
                order,
            ));
        } else if j == i + 1 {
            assert(ncs[j] == rgt);
            assert(sep_lo(nes, j, lo) == med.key as int);
            assert(sep_hi(nes, j, hi) == shi);
            assert(rgt.inv_cap(
                sep_lo(c3.entries@, 1, slo),
                sep_hi(c3.entries@, 1, shi),
                order,
                order,
            ));
        } else {
            assert(ncs[(j - 1) + 1] == cs2[j - 1]);
            assert(cs2[(j - 2) + 1] == cs1[j - 2]);
            cs0.remove_ensures(i);
            assert(cs1[j - 2] == cs0[j - 1]);
            assert(ncs[j] == cs0[j - 1]);
            assert(nes[(j - 2) + 1] == es0[j - 2]);
            assert(sep_lo(nes, j, lo) == sep_lo(es0, j - 1, lo));
            assert(sep_hi(nes, j, hi) == sep_hi(es0, j - 1, hi));
        }
    }
    assert(n1.inv_cap(lo, hi, order, order + 1));
    // bookkeeping: the absorbed pairs are the child's
    lemma_ems_insert(es0, i, med);
    lemma_ccf_remove(cs0, i, 0);
    lemma_ccf_insert(cs1, i, rgt, 0);
    lemma_ccf_insert(cs2, i, lft, 0);
    let mp = (med.key, med.value@);
    assert(entries_ms(nes) == entries_ms(es0).insert(mp));
    assert(children_contents_from(ncs, 0) == children_contents_from(cs1, 0).add(
        rgt.contents(),
    ).add(lft.contents()));
    assert(children_contents_from(cs0, 0) == children_contents_from(cs1, 0).add(
        c.contents(),
    ));
    lemma_contents_one_two(c3);
    assert(c3.contents() == Multiset::<(u32, Seq<char>)>::empty().insert(mp).add(
        lft.contents(),
    ).add(rgt.contents()));
    assert(n0.contents() == entries_ms(es0).add(children_contents_from(cs0, 0)));
    assert(n1.contents() == entries_ms(nes).add(children_contents_from(ncs, 0)));
    assert(n0.lookup(key) == c.lookup(key));
    c.lemma_lookup_contents(key);
    let base = entries_ms(es0).add(children_contents_from(cs1, 0));
    assert(n1.contents() =~= base.add(c3.contents()));
    assert(n0.contents() =~= base.add(c.contents()));
    lemma_contents_update(base, c.contents(), c3.contents(), c.lookup(key), key, value);
    assert(n1.contents() == n0.contents_after(key, value));
}

impl Node {
    /// Places `value` under `key` in the subtree rooted here and repairs it
    /// on the way back up: the descent rule picks the child whose range
    /// holds the key; at the leaf the entry joins the run in key order (an
    /// equal key has its value overwritten); a child that the step left
    /// over-full is split, and a split child that fell below minimum
    /// occupancy is absorbed into this node. Only this node may come out
    /// one entry over capacity; its parent (or the tree, at the root)
    /// resolves that.
    #[verifier::rlimit(100)]
    #[verifier::spinoff_prover]
    pub fn insert_at(
        self,
        key: u32,
        value: String,
        order: usize,
        Ghost(lo): Ghost<int>,
        Ghost(hi): Ghost<int>,
    ) -> (r: Node)
        requires
            self.inv(lo, hi, order as int),
            lo < key as int,
            (key as int) < hi,
            order >= 2,
        ensures
            r.inv_cap(lo, hi, order as int, order as int + 1),
            self.entries@.len() <= r.entries@.len() <= self.entries@.len() + 1,
            r.contents() == self.contents_after(key, value@),
            r.depth == self.depth,
        decreases self,
    {
        let ghost es0 = self.entries@;
        let ghost cs0 = self.children@;
        let mut n = self;
        let i = find_ge(&n.entries, key);
        proof {
            lemma_first_ge(es0, key, 0);
        }
        if i < n.entries.len() && n.entries[i].key == key {
            // the key is already here: overwrite its value in place
            let mut e = n.entries.remove(i);
            let ghost old_pair = (es0[i as int].key, es0[i as int].value@);
            e.value = value;
            n.entries.insert(i, e);
            proof {
                let nes = n.entries@;
                assert(nes =~= es0.update(i as int, nes[i as int]));
                assert(nes[i as int].key == key && nes[i as int].value@ == value@);
                assert(n.entries_ok(lo, hi));
                assert forall|c: int| #![trigger n.children@[c]]
                    0 <= c < n.children@.len() implies n.children@[c].inv_cap(
                        sep_lo(nes, c, lo),
                        sep_hi(nes, c, hi),
                        order as int,
                        order as int,
                    ) by {
                    assert(sep_lo(nes, c, lo) == sep_lo(es0, c, lo));
                    assert(sep_hi(nes, c, hi) == sep_hi(es0, c, hi));
                }
                assert(n.inv_cap(lo, hi, order as int, order as int + 1));
                lemma_ems_remove(es0, i as int);
                lemma_ems_insert(es0.remove(i as int), i as int, n.entries@[i as int]);
                assert(es0.remove(i as int).insert(i as int, nes[i as int]) =~= nes);
                assert(self.lookup(key) == Option::Some(es0[i as int].value@));
                assert(entry_pairs(es0)[i as int] == old_pair);
                assert(entry_pairs(es0).contains(old_pair));
                assert(entries_ms(es0).count(old_pair) > 0);
                assert(n.contents() =~= self.contents().remove(old_pair).insert(
                    (key, value@),
                ));
            }
            n
        } else if n.children.len() == 0 {
            // a leaf: the entry joins the run in key order
            let e = Entry { key, value, depth: n.depth };
            proof {
                es0.insert_ensures(i as int, e);
                if i < es0.len() {
                    assert(es0[i as int].key > key);
                }
            }
            n.entries.insert(i, e);
            proof {
                let nes = n.entries@;
                assert forall|a: int, b: int| #![trigger nes[a], nes[b]]
                    0 <= a < b < nes.len() implies nes[a].key < nes[b].key by {
                    if a < i as int {
                        assert(nes[a] == es0[a]);
                        assert(es0[a].key < key);
                    } else if a > i as int {
                        assert(nes[(a - 1) + 1] == es0[a - 1]);
                        assert(es0[a - 1].key >= es0[i as int].key > key);
                    }
                    if b < i as int {
                        assert(nes[b] == es0[b]);
                        assert(es0[b].key < key);
                    } else if b > i as int {
                        assert(nes[(b - 1) + 1] == es0[b - 1]);
                        assert(es0[b - 1].key >= es0[i as int].key > key);
                    }
                }
                assert(n.entries_ok(lo, hi));
                assert(n.inv_cap(lo, hi, order as int, order as int + 1));
                lemma_ems_insert(es0, i as int, e);
                assert(self.lookup(key) is None);
                assert(n.contents() == self.contents_after(key, value@));
            }
            n
        } else {
            // internal: descend into the child whose range holds the key,
            // then repair whatever the step below left behind
            let ghost slo = sep_lo(es0, i as int, lo);
            let ghost shi = sep_hi(es0, i as int, hi);
            let c = n.children.remove(i);
            proof {
                assert(c == cs0[i as int]);
                assert(c.inv(slo, shi, order as int));
                if i > 0 {
                    assert(es0[i as int - 1].key < key);
                }
                if i < es0.len() {
                    assert(es0[i as int].key > key);
                }
                assert(slo < key as int && (key as int) < shi);
            }
            let c2 = c.insert_at(key, value, order, Ghost(slo), Ghost(shi));
            let ghost cs1 = n.children@;
            if c2.entries.len() > order {
                let c3 = c2.split(order, Ghost(slo), Ghost(shi));
                proof {
                    lemma_contents_one_two(c3);
                }
                if c3.entries.len() < order / 2 {
                    // the split child is under-occupied: absorb it, so its
                    // median rises here and its two halves take the slot
                    let mut c3m = c3;
                    let med = c3m.entries.remove(0);
                    let rgt = c3m.children.remove(1);
                    let lft = c3m.children.remove(0);
                    n.entries.insert(i, med);
                    n.children.insert(i, rgt);
                    n.children.insert(i, lft);
                    proof {
                        assert(med == c3.entries@[0]);
                        assert(lft == c3.children@[0] && rgt == c3.children@[1]);
                        assert(n.entries@ == es0.insert(i as int, med));
                        assert(n.children@ == cs0.remove(i as int).insert(i as int, rgt).insert(
                            i as int,
                            lft,
                        ));
                        lemma_absorb_step(
                            self,
                            n,
                            i as int,
                            lo,
                            hi,
                            order as int,
                            key,
                            value@,
                            c,
                            c3,
                            med,
                            lft,
                            rgt,
                        );
                    }
                    n
                } else {
                    n.children.insert(i, c3);
                    proof {
                        let ncs = n.children@;
                        cs1.insert_ensures(i as int, c3);
                        assert(ncs =~= cs0.update(i as int, c3));
                        assert forall|j: int| #![trigger ncs[j]]
                            0 <= j < ncs.len() implies ncs[j].inv_cap(
                                sep_lo(es0, j, lo),
                                sep_hi(es0, j, hi),
                                order as int,
                                order as int,
                            ) && ncs[j].entries@.len() >= order as int / 2 by {
                            if j != i as int {
                                assert(ncs[j] == cs0[j]);
                            }
                        }
                        assert(n.inv_cap(lo, hi, order as int, order as int + 1));
                        lemma_ccf_remove(cs0, i as int, 0);
                        lemma_ccf_insert(cs1, i as int, c3, 0);
                        assert(self.contents() == entries_ms(es0).add(
                            children_contents_from(cs0, 0),
                        ));
                        assert(n.contents() == entries_ms(es0).add(
                            children_contents_from(ncs, 0),
                        ));
                        assert(children_contents_from(ncs, 0) == children_contents_from(
                            cs1,
                            0,
                        ).add(c3.contents()));
                        assert(children_contents_from(cs0, 0) == children_contents_from(
                            cs1,
                            0,
                        ).add(c.contents()));
                        assert(c3.contents() == c.contents_after(key, value@));
                        assert(self.lookup(key) == c.lookup(key));
                        c.lemma_lookup_contents(key);
                        let base = entries_ms(es0).add(children_contents_from(cs1, 0));
                        assert(n.contents() =~= base.add(c3.contents()));
                        assert(self.contents() =~= base.add(c.contents()));
                        lemma_contents_update(
                            base,
                            c.contents(),
                            c3.contents(),
                            c.lookup(key),
                            key,
                            value@,
                        );
                        assert(n.contents() == self.contents_after(key, value@));
                    }
                    n
                }
            } else {
                n.children.insert(i, c2);
                proof {
                    let ncs = n.children@;
                    cs1.insert_ensures(i as int, c2);
                    assert(ncs =~= cs0.update(i as int, c2));
                    assert(c2.inv(slo, shi, order as int));
                    assert forall|j: int| #![trigger ncs[j]]
                        0 <= j < ncs.len() implies ncs[j].inv_cap(
                            sep_lo(es0, j, lo),
                            sep_hi(es0, j, hi),
                            order as int,
                            order as int,
                        ) && ncs[j].entries@.len() >= order as int / 2 by {
                        if j != i as int {
                            assert(ncs[j] == cs0[j]);
                        }
                    }
                    assert(n.inv_cap(lo, hi, order as int, order as int + 1));
                    lemma_ccf_remove(cs0, i as int, 0);
                    lemma_ccf_insert(cs1, i as int, c2, 0);
                    assert(self.contents() == entries_ms(es0).add(
                        children_contents_from(cs0, 0),
                    ));
                    assert(n.contents() == entries_ms(es0).add(
                        children_contents_from(ncs, 0),
                    ));
                    assert(children_contents_from(ncs, 0) == children_contents_from(
                        cs1,
                        0,
                    ).add(c2.contents()));
                    assert(children_contents_from(cs0, 0) == children_contents_from(
                        cs1,
                        0,
                    ).add(c.contents()));
                    assert(c2.contents() == c.contents_after(key, value@));
                    assert(self.lookup(key) == c.lookup(key));
                    c.lemma_lookup_contents(key);
                    let base = entries_ms(es0).add(children_contents_from(cs1, 0));
                    assert(n.contents() =~= base.add(c2.contents()));
                    assert(self.contents() =~= base.add(c.contents()));
                    lemma_contents_update(
                        base,
                        c.contents(),
                        c2.contents(),
                        c.lookup(key),
                        key,
                        value@,
                    );
                    assert(n.contents() == self.contents_after(key, value@));
                }
                n
            }
        }
    }
}

/// `b` is `a` with nothing but its depth labels rewritten: node for node
/// and entry for entry the keys, values and child topology stand where
/// they stood, and every label now reads `d` at the top and one more per
/// level below.
pub open spec fn same_but_labels(a: Node, b: Node, d: int) -> bool
    decreases a,
{
    &&& b.depth as int == d
    &&& b.entries@.len() == a.entries@.len()
    &&& forall|j: int| #![trigger b.entries@[j]]
        0 <= j < a.entries@.len() ==> b.entries@[j].key == a.entries@[j].key
            && b.entries@[j].value@ == a.entries@[j].value@
            && b.entries@[j].depth as int == d
    &&& b.children@.len() == a.children@.len()
    &&& forall|i: int| #![trigger b.children@[i]]
        0 <= i < a.children@.len() ==> same_but_labels(a.children@[i], b.children@[i], d + 1)
}

/// Relabeling is idempotent: a tree whose labels one pass has already set
/// is reproduced unchanged by another pass from the same starting label.
pub proof fn lemma_relabel_idempotent(a: Node, b: Node, d: int)
    requires
        same_but_labels(a, b, d),
    ensures
        same_but_labels(b, b, d),
    decreases a,
{
    assert forall|i: int| #![trigger b.children@[i]]
        0 <= i < b.children@.len() implies same_but_labels(
            b.children@[i],
            b.children@[i],
            d + 1,
        ) by {
        lemma_relabel_idempotent(a.children@[i], b.children@[i], d + 1);
    }
}

/// What one depth-correction step leaves behind: right labels and nothing
/// else moved — the same entries and child topology in place, the same
/// pairs, and whatever structural invariant held.
pub open spec fn relabeled_like(a: Node, b: Node, d: int) -> bool {
    &&& same_but_labels(a, b, d)
    &&& depth_ok(b, d)
    &&& b.contents() == a.contents()
    &&& b.min_filled()
    &&& b.entries@.len() == a.entries@.len()
    &&& b.children@.len() == a.children@.len()
    &&& forall|lo: int, hi: int, order: int, cap: int|
        a.inv_cap(lo, hi, order, cap) ==> #[trigger] b.inv_cap(lo, hi, order, cap)
}

/// Child runs whose subtrees hold the same pairs hold the same pairs.
pub proof fn lemma_ccf_contents_pointwise(cs1: Seq<Node>, cs2: Seq<Node>, j: int)
    requires
        0 <= j <= cs1.len(),
        cs1.len() == cs2.len(),
        forall|t: int| #![trigger cs1[t]] j <= t < cs1.len() ==> cs1[t].contents()
            == cs2[t].contents(),
    ensures
        children_contents_from(cs1, j) == children_contents_from(cs2, j),
    decreases cs1.len() - j,
{
    if j < cs1.len() {
        lemma_ccf_contents_pointwise(cs1, cs2, j + 1);
    }
}

/// An internal node with at least one entry stores strictly more pairs than
/// any one of its children.
pub proof fn lemma_child_contents_lt(n: Node, i: int)
    requires
        0 <= i < n.children@.len(),
        n.entries@.len() >= 1,
    ensures
        n.children@[i].contents().len() < n.contents().len(),
{
    lemma_ccf_len_ge(n.children@, i, 0);
    assert(entry_pairs(n.entries@).len() == n.entries@.len());
    assert(entries_ms(n.entries@).len() == n.entries@.len());
}

impl Node {
    /// A structurally sound subtree has no entry-less internal node.
    pub proof fn lemma_inv_min_filled(self, lo: int, hi: int, order: int, cap: int)
        requires
            self.inv_cap(lo, hi, order, cap),
        ensures
            self.min_filled(),
        decreases self,
    {
        let es = self.entries@;
        let cs = self.children@;
        assert forall|i: int| #![trigger cs[i]] 0 <= i < cs.len() implies cs[i].min_filled() by {
            cs[i].lemma_inv_min_filled(sep_lo(es, i, lo), sep_hi(es, i, hi), order, order);
        }
    }

    /// Recomputes the depth labels of the whole subtree: this node takes
    /// label `d`, its entries take their node's label, and every child is
    /// relabeled one deeper, recursively. The structure and the stored
    /// pairs are untouched.
    pub fn relabel(self, d: u64) -> (r: Node)
        requires
            self.min_filled(),
            1 <= d,
            d + self.contents().len() <= u64::MAX,
        ensures
            relabeled_like(self, r, d as int),
        decreases self,
    {
        let ghost es0 = self.entries@;
        let ghost cs0 = self.children@;
        let mut n = self;
        n.depth = d;
        let mut j: usize = 0;
        while j < n.entries.len()
            invariant
                j <= n.entries@.len(),
                n.entries@.len() == es0.len(),
                n.children@ == cs0,
                n.depth == d,
                forall|t: int| #![trigger n.entries@[t]]
                    0 <= t < j ==> n.entries@[t].depth == d && n.entries@[t].key == es0[t].key
                        && n.entries@[t].value@ == es0[t].value@,
                forall|t: int| #![trigger n.entries@[t]]
                    j <= t < es0.len() ==> n.entries@[t] == es0[t],
            decreases n.entries@.len() - j,
        {
            let ghost prev = n.entries@;
            let mut e = n.entries.remove(j);
            e.depth = d;
            n.entries.insert(j, e);
            proof {
                assert(n.entries@ =~= prev.update(j as int, n.entries@[j as int]));
            }
            j += 1;
        }
        let ghost es1 = n.entries@;
        let mut i: usize = 0;
        while i < n.children.len()
            invariant
                i <= n.children@.len(),
                n.children@.len() == cs0.len(),
                n.entries@ == es1,
                n.depth == d,
                self.min_filled(),
                1 <= d,
                d + self.contents().len() <= u64::MAX,
                self.entries@ == es0,
                self.children@ == cs0,
                forall|t: int| #![trigger n.children@[t]]
                    0 <= t < i ==> relabeled_like(cs0[t], n.children@[t], d as int + 1),
                forall|t: int| #![trigger n.children@[t]]
                    i <= t < cs0.len() ==> n.children@[t] == cs0[t],
            decreases n.children@.len() - i,
        {
            let ghost prev = n.children@;
            let c = n.children.remove(i);
            proof {
                assert(c == cs0[i as int]);
                lemma_child_contents_lt(self, i as int);
            }
            let c2 = c.relabel(d + 1);
            n.children.insert(i, c2);
            proof {
                assert(n.children@ =~= prev.update(i as int, c2));
            }
            i += 1;
        }
        proof {
            let nes = n.entries@;
            let ncs = n.children@;
            // the same pairs
            assert(entry_pairs(nes) =~= entry_pairs(es0));
            assert forall|t: int| #![trigger ncs[t]]
                0 <= t < ncs.len() implies ncs[t].contents() == cs0[t].contents() by {
            }
            lemma_ccf_contents_pointwise(ncs, cs0, 0);
            assert(n.contents() == self.contents());
            // right labels, at every level
            assert(depth_ok(n, d as int));
            // the same silhouette, so the structural invariant carries over
            assert forall|lo: int, hi: int, order: int, cap: int|
                self.inv_cap(lo, hi, order, cap) implies #[trigger] n.inv_cap(
                    lo,
                    hi,
                    order,
                    cap,
                ) by {
                assert(n.entries_ok(lo, hi));
                assert forall|t: int| #![trigger ncs[t]]
                    0 <= t < ncs.len() implies ncs[t].inv_cap(
                        sep_lo(nes, t, lo),
                        sep_hi(nes, t, hi),
                        order,
                        order,
                    ) && ncs[t].entries@.len() >= order / 2 by {
                    assert(cs0[t].inv_cap(
                        sep_lo(es0, t, lo),
                        sep_hi(es0, t, hi),
                        order,
                        order,
                    ));
                    assert(sep_lo(nes, t, lo) == sep_lo(es0, t, lo));
                    assert(sep_hi(nes, t, hi) == sep_hi(es0, t, hi));
                }
            }
            assert(n.min_filled());
            // nothing but the labels moved
            assert forall|t: int| #![trigger ncs[t]]
                0 <= t < ncs.len() implies same_but_labels(cs0[t], ncs[t], d as int + 1) by {
            }
            assert(same_but_labels(self, n, d as int));
        }
        n
    }
}

impl Node {
    /// One sweep of the repair scan: reports whether any node of the subtree
    /// is over capacity, out of shape, out of key order, sorted past its
    /// separator, or (below the top) under the minimum occupancy. On a
    /// subtree that satisfies the invariant it finds nothing, which is what
    /// makes the fix-up pass idempotent.
    pub fn scan_repairs(
        &self,
        order: usize,
        Ghost(lo): Ghost<int>,
        Ghost(hi): Ghost<int>,
    ) -> (b: bool)
        requires
            self.inv(lo, hi, order as int),
        ensures
            !b,
        decreases self,
    {
        let mut bad = self.entries.len() > order;
        if self.children.len() != 0 && self.children.len() != self.entries.len() + 1 {
            bad = true;
        }
        let mut j: usize = 1;
        while j < self.entries.len()
            invariant
                self.inv(lo, hi, order as int),
                1 <= j,
                !bad,
            decreases self.entries@.len() - j,
        {
            proof {
                assert(self.entries@[j as int - 1].key < self.entries@[j as int].key);
            }
            if self.entries[j - 1].key >= self.entries[j].key {
                bad = true;
            }
            j += 1;
        }
        let mut i: usize = 0;
        while i < self.children.len()
            invariant
                self.inv(lo, hi, order as int),
                i <= self.children@.len(),
                !bad,
            decreases self.children@.len() - i,
        {
            let c = &self.children[i];
            if c.entries.len() < order / 2 {
                bad = true;
            }
            proof {
                if i > 0 && c.entries@.len() > 0 {
                    assert(self.children@[i as int].inv_cap(
                        sep_lo(self.entries@, i as int, lo),
                        sep_hi(self.entries@, i as int, hi),
                        order as int,
                        order as int,
                    ));
                    assert(self.children@[i as int].entries@[0].key as int > sep_lo(
                        self.entries@,
                        i as int,
                        lo,
                    ));
                }
            }
            if i > 0 && c.entries.len() > 0 && c.entries[0].key <= self.entries[i - 1].key {
                // a child sorted below the separator to its left would have
                // to be re-homed
                bad = true;
            }
            let ghost es = self.entries@;
            let sub = c.scan_repairs(
                order,
                Ghost(sep_lo(es, i as int, lo)),
                Ghost(sep_hi(es, i as int, hi)),
            );
            if sub {
                bad = true;
            }
            i += 1;
        }
        bad
    }
}

/// The (key, value) pairs of a collected row, as mathematical values.
pub open spec fn row_pairs(s: Seq<(u32, String)>) -> Seq<(u32, Seq<char>)> {
    s.map_values(|p: (u32, String)| (p.0, p.1@))
}

/// The number of nodes in the subtrees `cs[i..]`.
pub open spec fn node_count_from(cs: Seq<Node>, i: int) -> nat
    decreases cs, cs.len() - i,
{
    if 0 <= i < cs.len() {
        cs[i].node_count() + node_count_from(cs, i + 1)
    } else {
        0
    }
}

/// The tallest height among the subtrees `cs[i..]`.
pub open spec fn max_height_from(cs: Seq<Node>, i: int) -> nat
    decreases cs, cs.len() - i,
{
    if 0 <= i < cs.len() {
        let rest = max_height_from(cs, i + 1);
        if cs[i].height_of() > rest {
            cs[i].height_of()
        } else {
            rest
        }
    } else {
        0
    }
}

/// The number of leaves in the subtrees `cs[i..]`.
pub open spec fn leaf_count_from(cs: Seq<Node>, i: int) -> nat
    decreases cs, cs.len() - i,
{
    if 0 <= i < cs.len() {
        cs[i].leaf_count() + leaf_count_from(cs, i + 1)
    } else {
        0
    }
}

impl Node {
    /// The number of nodes in this subtree.
    pub open spec fn node_count(self) -> nat
        decreases self, 0int,
    {
        1 + node_count_from(self.children@, 0)
    }

    /// The height of this subtree: 1 for a leaf.
    pub open spec fn height_of(self) -> nat
        decreases self, 0int,
    {
        1 + max_height_from(self.children@, 0)
    }

    /// The number of leaves in this subtree.
    pub open spec fn leaf_count(self) -> nat
        decreases self, 0int,
    {
        if self.children@.len() == 0 {
            1
        } else {
            leaf_count_from(self.children@, 0)
        }
    }
}

/// Under the invariant, the aggregate figures of the child run are bounded
/// by the number of pairs it stores.
pub proof fn lemma_stats_from(n: Node, lo: int, hi: int, order: int, cap: int, i: int)
    requires
        n.inv_cap(lo, hi, order, cap),
        order >= 2,
        0 <= i <= n.children@.len(),
    ensures
        node_count_from(n.children@, i) <= children_contents_from(n.children@, i).len(),
        max_height_from(n.children@, i) <= node_count_from(n.children@, i),
        leaf_count_from(n.children@, i) <= node_count_from(n.children@, i),
    decreases n, 0int, n.children@.len() - i,
{
    let cs = n.children@;
    if i < cs.len() {
        let es = n.entries@;
        lemma_stats_bounded(cs[i], sep_lo(es, i, lo), sep_hi(es, i, hi), order, order);
        lemma_stats_from(n, lo, hi, order, cap, i + 1);
        assert(entry_pairs(cs[i].entries@).len() == cs[i].entries@.len());
        assert(cs[i].contents().len() >= cs[i].entries@.len());
    }
}

/// Under the invariant, a subtree has at most one node more than it stores
/// pairs, its height never exceeds its node count, and neither does its
/// leaf count. A node that holds at least one entry (every node below the
/// top does) has no more nodes than pairs.
pub proof fn lemma_stats_bounded(n: Node, lo: int, hi: int, order: int, cap: int)
    requires
        n.inv_cap(lo, hi, order, cap),
        order >= 2,
    ensures
        n.node_count() <= n.contents().len() + 1,
        n.entries@.len() >= 1 ==> n.node_count() <= n.contents().len(),
        n.height_of() <= n.node_count(),
        n.leaf_count() <= n.node_count(),
    decreases n, 1int, 0int,
{
    lemma_stats_from(n, lo, hi, order, cap, 0);
    assert(entry_pairs(n.entries@).len() == n.entries@.len());
    assert(entries_ms(n.entries@).len() == n.entries@.len());
}

impl Node {
    /// Appends every (key, value) pair of this subtree to `out`, the node's
    /// own entries first, then each child in order.
    pub fn collect_into(&self, out: &mut Vec<(u32, String)>)
        ensures
            row_pairs(final(out)@).to_multiset() == row_pairs(old(out)@).to_multiset().add(
                self.contents(),
            ),
        decreases self,
    {
        let ghost start = out@;
        let ghost es = self.entries@;
        let ghost cs = self.children@;
        let mut j: usize = 0;
        while j < self.entries.len()
            invariant
                j <= es.len(),
                self.entries@ == es,
                self.children@ == cs,
                row_pairs(out@).to_multiset() == row_pairs(start).to_multiset().add(
                    entries_ms(es.subrange(0, j as int)),
                ),
            decreases es.len() - j,
        {
            let ghost prev = out@;
            let e = &self.entries[j];
            out.push((e.key, e.value.clone()));
            proof {
                assert(row_pairs(out@) =~= row_pairs(prev).push((es[j as int].key, es[
                    j as int].value@)));
                assert(entry_pairs(es.subrange(0, j as int + 1)) =~= entry_pairs(
                    es.subrange(0, j as int),
                ).push((es[j as int].key, es[j as int].value@)));
                assert(row_pairs(out@).to_multiset() =~= row_pairs(start).to_multiset().add(
                    entries_ms(es.subrange(0, j as int + 1)),
                ));
            }
            j += 1;
        }
        proof {
            assert(es.subrange(0, es.len() as int) =~= es);
        }
        let mut i: usize = 0;
        while i < self.children.len()
            invariant
                i <= cs.len(),
                self.entries@ == es,
                self.children@ == cs,
                row_pairs(out@).to_multiset().add(children_contents_from(cs, i as int))
                    == row_pairs(start).to_multiset().add(entries_ms(es)).add(
                    children_contents_from(cs, 0),
                ),
            decreases cs.len() - i,
        {
            let ghost prev = out@;
            let c = &self.children[i];
            c.collect_into(out);
            proof {
                assert(row_pairs(out@).to_multiset().add(
                    children_contents_from(cs, i as int + 1),
                ) =~= row_pairs(prev).to_multiset().add(children_contents_from(
                    cs,
                    i as int,
                )));
            }
            i += 1;
        }
        proof {
            assert(children_contents_from(cs, cs.len() as int)
                == Multiset::<(u32, Seq<char>)>::empty());
            assert(self.contents() == entries_ms(es).add(children_contents_from(cs, 0)));
            assert(row_pairs(out@).to_multiset().add(
                Multiset::<(u32, Seq<char>)>::empty(),
            ) =~= row_pairs(out@).to_multiset());
            assert(row_pairs(out@).to_multiset() =~= row_pairs(start).to_multiset().add(
                self.contents(),
            ));
        }
    }
}

impl Node {
    /// The aggregate pass over this subtree: its node count, height, stored
    /// pair count and leaf count, each exactly the mathematical figure.
    pub fn measure(
        &self,
        order: usize,
        Ghost(lo): Ghost<int>,
        Ghost(hi): Ghost<int>,
    ) -> (r: (u64, u64, u64, u64))
        requires
            self.inv(lo, hi, order as int),
            order >= 2,
            self.contents().len() + 1 <= u64::MAX,
        ensures
            r.0 == self.node_count(),
            r.1 == self.height_of(),
            r.2 == self.contents().len(),
            r.3 == self.leaf_count(),
        decreases self,
    {
        proof {
            lemma_stats_bounded(*self, lo, hi, order as int, order as int);
            assert(entry_pairs(self.entries@).len() == self.entries@.len());
            assert(entries_ms(self.entries@).len() == self.entries@.len());
        }
        let ghost es = self.entries@;
        let ghost cs = self.children@;
        let mut nodes: u64 = 1;
        let mut height: u64 = 1;
        let mut keys: u64 = self.entries.len() as u64;
        let mut leaves: u64 = if self.children.len() == 0 {
            1
        } else {
            0
        };
        let mut i: usize = 0;
        while i < self.children.len()
            invariant
                i <= cs.len(),
                self.entries@ == es,
                self.children@ == cs,
                self.inv(lo, hi, order as int),
                order >= 2,
                self.contents().len() + 1 <= u64::MAX,
                nodes + node_count_from(cs, i as int) == self.node_count(),
                keys + children_contents_from(cs, i as int).len() == self.contents().len(),
                leaves + leaf_count_from(cs, i as int) == self.leaf_count(),
                cs.len() != 0 ==> leaves <= nodes,
                self.height_of() == (if 1 + max_height_from(cs, i as int) > height {
                    (1 + max_height_from(cs, i as int)) as int
                } else {
                    height as int
                }),
                1 <= height <= nodes,
            decreases cs.len() - i,
        {
            proof {
                lemma_stats_from(*self, lo, hi, order as int, order as int, i as int);
                lemma_stats_bounded(
                    cs[i as int],
                    sep_lo(es, i as int, lo),
                    sep_hi(es, i as int, hi),
                    order as int,
                    order as int,
                );
            }
            let c = &self.children[i];
            let (cn, ch, ck, cl) = c.measure(
                order,
                Ghost(sep_lo(es, i as int, lo)),
                Ghost(sep_hi(es, i as int, hi)),
            );
            proof {
                lemma_stats_bounded(*self, lo, hi, order as int, order as int);
                assert(entries_ms(self.entries@).len() == self.entries@.len());
                assert(node_count_from(cs, i as int) == cs[i as int].node_count()
                    + node_count_from(cs, i as int + 1));
                assert(children_contents_from(cs, i as int) == cs[i as int].contents().add(
                    children_contents_from(cs, i as int + 1),
                ));
                assert(leaf_count_from(cs, i as int) == cs[i as int].leaf_count()
                    + leaf_count_from(cs, i as int + 1));
                assert(max_height_from(cs, i as int) == (if cs[i as int].height_of()
                    > max_height_from(cs, i as int + 1) {
                    cs[i as int].height_of()
                } else {
                    max_height_from(cs, i as int + 1)
                }));
            }
            nodes = nodes + cn;
            keys = keys + ck;
            leaves = leaves + cl;
            if ch + 1 > height {
                height = ch + 1;
            }
            i += 1;
        }
        proof {
            assert(node_count_from(cs, cs.len() as int) == 0);
            assert(leaf_count_from(cs, cs.len() as int) == 0);
            assert(max_height_from(cs, cs.len() as int) == 0);
            assert(children_contents_from(cs, cs.len() as int)
                == Multiset::<(u32, Seq<char>)>::empty());
        }
        (nodes, height, keys, leaves)
    }
}

} // verus!
