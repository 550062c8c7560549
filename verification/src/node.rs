use vstd::laws_eq::obeys_concrete_eq;
use vstd::prelude::*;

verus! {

/// One position in the prefix space: a leaf flag, the cached completions
/// (filled in by the index build), and the labelled children.
#[derive(Debug)]
pub struct Node<Label> {
    pub(crate) is_leaf: bool,
    pub(crate) subwords: Vec<Vec<Label>>,
    pub(crate) children: Vec<(Label, Node<Label>)>,
}

/// The views of a list of words: each stored `Vec` of labels as a `Seq`.
pub open spec fn word_views<Label>(ws: Seq<Vec<Label>>) -> Seq<Seq<Label>> {
    ws.map_values(|w: Vec<Label>| w@)
}

impl<Label> Node<Label> {
    /// A sequence is stored in this subtree when walking it symbol by symbol
    /// stays inside the subtree and ends on a node marked as a leaf.
    pub closed spec fn stores(self, t: Seq<Label>) -> bool
        decreases self,
    {
        if t.len() == 0 {
            self.is_leaf
        } else {
            exists|i: int|
                0 <= i < self.children@.len() && (#[trigger] self.children@[i]).0 == t[0]
                    && self.children@[i].1.stores(t.skip(1))
        }
    }

    /// Child labels are pairwise distinct, recursively: each sequence has at
    /// most one path through the trie.
    pub closed spec fn wf(self) -> bool
        decreases self,
    {
        &&& (forall|i: int, j: int|
            0 <= i < j < self.children@.len() ==> (#[trigger] self.children@[i]).0 != (
            #[trigger] self.children@[j]).0)
        &&& (forall|i: int|
            0 <= i < self.children@.len() ==> (#[trigger] self.children@[i]).1.wf())
    }

    /// The subtree stores at least one sequence.
    pub(crate) open spec fn lives(self) -> bool {
        exists|t: Seq<Label>| self.stores(t)
    }

    /// Every child of `cs` stores at least one sequence.
    pub(crate) open spec fn all_live(cs: Seq<(Label, Node<Label>)>) -> bool {
        forall|i: int| 0 <= i < cs.len() ==> (#[trigger] cs[i]).1.lives()
    }

    /// Every child subtree stores at least one sequence: no node exists that
    /// insertion did not create on the way to some stored sequence.
    pub closed spec fn pruned(self) -> bool
        decreases self,
    {
        &&& Self::all_live(self.children@)
        &&& forall|i: int|
            0 <= i < self.children@.len() ==> (#[trigger] self.children@[i]).1.pruned()
    }

    /// How many nodes of this subtree, the node itself included, make up the
    /// first `j` child subtrees.
    pub(crate) closed spec fn count_upto(self, j: int) -> nat
        decreases self, j,
    {
        if j <= 0 || j > self.children@.len() {
            0
        } else {
            self.count_upto(j - 1) + self.children@[j - 1].1.node_count()
        }
    }

    /// The number of nodes in this subtree, the node itself included.
    pub(crate) closed spec fn node_count(self) -> nat
        decreases self, self.children@.len() + 1,
    {
        1 + self.count_upto(self.children@.len() as int)
    }

    /// How many symbols of `t` already have a path below this node: the part
    /// of `t` an insertion would walk through without creating nodes.
    pub(crate) closed spec fn reach_depth(self, t: Seq<Label>) -> nat
        decreases t.len(),
    {
        if t.len() == 0 {
            0
        } else if exists|i: int|
            0 <= i < self.children@.len() && (#[trigger] self.children@[i]).0 == t[0] {
            let i = choose|i: int|
                0 <= i < self.children@.len() && (#[trigger] self.children@[i]).0 == t[0];
            1 + self.children@[i].1.reach_depth(t.skip(1))
        } else {
            0
        }
    }

    /// Nodes agreeing on their first `m` children count them alike.
    proof fn lemma_count_upto_agree(a: Node<Label>, b: Node<Label>, m: int)
        requires
            0 <= m <= a.children@.len(),
            m <= b.children@.len(),
            forall|i: int| 0 <= i < m ==> (#[trigger] a.children@[i]) == b.children@[i],
        ensures
            a.count_upto(m) == b.count_upto(m),
        decreases m,
    {
        if m > 0 {
            Self::lemma_count_upto_agree(a, b, m - 1);
            assert(a.children@[m - 1] == b.children@[m - 1]);
        }
    }

    /// Replacing the child at position `j` changes the count by that child's
    /// difference alone.
    proof fn lemma_count_upto_update(a: Node<Label>, b: Node<Label>, j: int, m: int)
        requires
            0 <= j < a.children@.len(),
            b.children@.len() == a.children@.len(),
            forall|i: int|
                0 <= i < a.children@.len() && i != j ==> (#[trigger] a.children@[i])
                    == b.children@[i],
            0 <= m <= a.children@.len(),
        ensures
            m <= j ==> b.count_upto(m) == a.count_upto(m),
            m > j ==> b.count_upto(m) as int == a.count_upto(m) + b.children@[j].1.node_count()
                - a.children@[j].1.node_count(),
        decreases m,
    {
        if m > 0 {
            Self::lemma_count_upto_update(a, b, j, m - 1);
            if m - 1 != j {
                assert(a.children@[m - 1] == b.children@[m - 1]);
            }
        }
    }

    /// A stored sequence's path exists in full, so any sequence sharing its
    /// first `k` symbols already has a path at least `k` deep.
    pub(crate) proof fn lemma_reach_depth_of_stored_prefix(
        self,
        a: Seq<Label>,
        b: Seq<Label>,
        k: int,
    )
        requires
            self.wf(),
            self.stores(a),
            0 <= k <= a.len(),
            k <= b.len(),
            forall|i: int| 0 <= i < k ==> a[i] == b[i],
        ensures
            self.reach_depth(b) >= k,
        decreases k,
    {
        if k > 0 {
            let ich = choose|i: int|
                0 <= i < self.children@.len() && (#[trigger] self.children@[i]).0 == a[0]
                    && self.children@[i].1.stores(a.skip(1));
            assert(b[0] == a[0]);
            assert(exists|i: int|
                0 <= i < self.children@.len() && (#[trigger] self.children@[i]).0 == b[0]);
            let i0 = choose|i: int|
                0 <= i < self.children@.len() && (#[trigger] self.children@[i]).0 == b[0];
            assert(i0 == ich);
            assert(self.reach_depth(b) == 1 + self.children@[i0].1.reach_depth(b.skip(1)));
            assert forall|i: int| 0 <= i < k - 1 implies a.skip(1)[i] == b.skip(1)[i] by {
                assert(a.skip(1)[i] == a[i + 1]);
                assert(b.skip(1)[i] == b[i + 1]);
            }
            self.children@[ich].1.lemma_reach_depth_of_stored_prefix(
                a.skip(1),
                b.skip(1),
                k - 1,
            );
        }
    }

    /// The node's cached completions are exact for the position `p`: they list,
    /// without duplicates, every stored sequence of the whole trie whose path
    /// runs through this node, written out in full; and so do, recursively, the
    /// caches of all children.
    pub closed spec fn indexed(self, p: Seq<Label>) -> bool
        decreases self,
    {
        &&& word_views(self.subwords@).no_duplicates()
        &&& (forall|s: Seq<Label>|
            #[trigger] word_views(self.subwords@).contains(s) <==> (p.len() <= s.len() && s.take(
                p.len() as int,
            ) == p && self.stores(s.skip(p.len() as int))))
        &&& (forall|i: int|
            0 <= i < self.children@.len() ==> (#[trigger] self.children@[i]).1.indexed(
                p.push(self.children@[i].0),
            ))
    }

    /// Membership in a concatenation is membership in either part.
    proof fn lemma_contains_concat(a: Seq<Seq<Label>>, b: Seq<Seq<Label>>, s: Seq<Label>)
        ensures
            (a + b).contains(s) <==> (a.contains(s) || b.contains(s)),
    {
        if (a + b).contains(s) {
            let i = choose|i: int| 0 <= i < (a + b).len() && (a + b)[i] == s;
            if i < a.len() {
                assert(a[i] == s);
            } else {
                assert(b[i - a.len()] == s);
            }
        }
        if a.contains(s) {
            let i = choose|i: int| 0 <= i < a.len() && a[i] == s;
            assert((a + b)[i] == s);
        }
        if b.contains(s) {
            let i = choose|i: int| 0 <= i < b.len() && b[i] == s;
            assert((a + b)[a.len() + i] == s);
        }
    }

    /// Concatenating duplicate-free lists with no common word stays
    /// duplicate-free.
    proof fn lemma_no_dup_concat(a: Seq<Seq<Label>>, b: Seq<Seq<Label>>)
        requires
            a.no_duplicates(),
            b.no_duplicates(),
            forall|s: Seq<Label>| a.contains(s) ==> !b.contains(s),
        ensures
            (a + b).no_duplicates(),
    {
        assert forall|i: int, j: int|
            0 <= i < (a + b).len() && 0 <= j < (a + b).len() && i != j implies (a + b)[i] != (a
            + b)[j] by {
            if i < a.len() && j < a.len() {
                assert((a + b)[i] == a[i] && (a + b)[j] == a[j]);
            } else if i >= a.len() && j >= a.len() {
                assert((a + b)[i] == b[i - a.len()] && (a + b)[j] == b[j - a.len()]);
            } else if i < a.len() && j >= a.len() {
                assert(a.contains(a[i]));
                if (a + b)[i] == (a + b)[j] {
                    assert(b.contains(a[i]));
                }
            } else {
                assert(a.contains(a[j]));
                if (a + b)[i] == (a + b)[j] {
                    assert(b.contains(a[j]));
                }
            }
        }
    }

    /// Taking one more symbol than `p` yields `p.push(l)` exactly when `p` is
    /// a prefix and `l` the next symbol.
    proof fn lemma_take_push(s: Seq<Label>, p: Seq<Label>, l: Label)
        requires
            p.len() + 1 <= s.len(),
        ensures
            s.take(p.len() as int + 1) == p.push(l) <==> (s.take(p.len() as int) == p && s[p.len() as int]
                == l),
    {
        let pl = p.len() as int;
        if s.take(pl + 1) == p.push(l) {
            assert forall|i: int| 0 <= i < pl implies s.take(pl)[i] == p[i] by {
                assert(s.take(pl + 1)[i] == p.push(l)[i]);
            }
            assert(s.take(pl) =~= p);
            assert(s.take(pl + 1)[pl] == p.push(l)[pl]);
        }
        if s.take(pl) == p && s[pl] == l {
            assert forall|i: int| 0 <= i < pl + 1 implies s.take(pl + 1)[i] == p.push(l)[i] by {
                if i < pl {
                    assert(s.take(pl)[i] == p[i]);
                }
            }
            assert(s.take(pl + 1) =~= p.push(l));
        }
    }

    /// One more child is reachable: membership up to `j + 1` adds exactly the
    /// sequences that continue through child `j`.
    proof fn lemma_stores_upto_step(
        is_leaf: bool,
        cs: Seq<(Label, Node<Label>)>,
        j: int,
        t: Seq<Label>,
    )
        requires
            0 <= j < cs.len(),
        ensures
            Self::stores_upto(is_leaf, cs, j + 1, t) <==> (Self::stores_upto(is_leaf, cs, j, t)
                || (t.len() > 0 && cs[j].0 == t[0] && cs[j].1.stores(t.skip(1)))),
    {
        if t.len() > 0 && Self::stores_upto(is_leaf, cs, j + 1, t) {
            let i = choose|i: int|
                0 <= i < j + 1 && i < cs.len() && (#[trigger] cs[i]).0 == t[0] && cs[i].1.stores(
                    t.skip(1),
                );
            if i < j {
                assert(Self::stores_upto(is_leaf, cs, j, t));
            }
        }
    }

    /// Membership through all children is plain membership.
    proof fn lemma_stores_upto_full(self, t: Seq<Label>)
        ensures
            Self::stores_upto(self.is_leaf, self.children@, self.children@.len() as int, t)
                <==> self.stores(t),
    {
        if t.len() > 0 {
            let cs = self.children@;
            if Self::stores_upto(self.is_leaf, cs, cs.len() as int, t) {
                let i = choose|i: int|
                    0 <= i < cs.len() && (#[trigger] cs[i]).0 == t[0] && cs[i].1.stores(t.skip(1));
                assert(self.children@[i].0 == t[0] && self.children@[i].1.stores(t.skip(1)));
            }
            if self.stores(t) {
                let i = choose|i: int|
                    0 <= i < self.children@.len() && (#[trigger] self.children@[i]).0 == t[0]
                        && self.children@[i].1.stores(t.skip(1));
                assert(cs[i].0 == t[0] && cs[i].1.stores(t.skip(1)));
            }
        }
    }

    /// Membership up to `j` is unchanged when the first `j` children keep
    /// their labels and store the same sequences.
    proof fn lemma_stores_upto_equiv(
        is_leaf: bool,
        cs1: Seq<(Label, Node<Label>)>,
        cs2: Seq<(Label, Node<Label>)>,
        j: int,
        t: Seq<Label>,
    )
        requires
            j <= cs1.len(),
            j <= cs2.len(),
            forall|i: int| 0 <= i < j ==> (#[trigger] cs1[i]).0 == (#[trigger] cs2[i]).0,
            forall|i: int, u: Seq<Label>|
                0 <= i < j ==> ((#[trigger] cs1[i].1.stores(u)) <==> cs2[i].1.stores(u)),
        ensures
            Self::stores_upto(is_leaf, cs1, j, t) <==> Self::stores_upto(is_leaf, cs2, j, t),
    {
        if t.len() > 0 {
            if Self::stores_upto(is_leaf, cs1, j, t) {
                let i = choose|i: int|
                    0 <= i < j && i < cs1.len() && (#[trigger] cs1[i]).0 == t[0] && cs1[i].1.stores(
                        t.skip(1),
                    );
                assert(cs2[i].0 == t[0] && cs2[i].1.stores(t.skip(1)));
            }
            if Self::stores_upto(is_leaf, cs2, j, t) {
                let i = choose|i: int|
                    0 <= i < j && i < cs2.len() && (#[trigger] cs2[i]).0 == t[0] && cs2[i].1.stores(
                        t.skip(1),
                    );
                assert(cs1[i].0 == t[0] && cs1[i].1.stores(t.skip(1)));
            }
        }
    }

    /// With distinct child labels, a non-empty sequence is stored exactly when
    /// its tail is stored below the one child keyed by its head.
    pub(crate) proof fn lemma_stores_through_child(self, j: int, u: Seq<Label>)
        requires
            self.wf(),
            0 <= j < self.children@.len(),
            u.len() > 0,
            self.children@[j].0 == u[0],
        ensures
            self.stores(u) <==> self.children@[j].1.stores(u.skip(1)),
    {
        if self.stores(u) {
            let i = choose|i: int|
                0 <= i < self.children@.len() && (#[trigger] self.children@[i]).0 == u[0]
                    && self.children@[i].1.stores(u.skip(1));
            assert(i == j);
        }
        if self.children@[j].1.stores(u.skip(1)) {
            assert(self.children@[j].0 == u[0] && self.children@[j].1.stores(u.skip(1)));
        }
    }

    /// The empty sequence is stored exactly at a leaf mark.
    pub(crate) proof fn lemma_stores_empty(self)
        ensures
            self.stores(Seq::<Label>::empty()) <==> self.is_leaf,
    {
    }

    /// Descending into the child at position `j` keeps every well-formedness
    /// fact, and stores exactly the tails of the sequences through its label.
    pub(crate) proof fn lemma_child_step(self, j: int, p: Seq<Label>)
        requires
            self.wf(),
            0 <= j < self.children@.len(),
        ensures
            self.children@[j].1.wf(),
            self.pruned() ==> self.children@[j].1.pruned(),
            self.pruned() ==> self.children@[j].1.lives(),
            self.indexed(p) ==> self.children@[j].1.indexed(p.push(self.children@[j].0)),
            forall|t: Seq<Label>| #![trigger self.children@[j].1.stores(t)]
                self.children@[j].1.stores(t) <==> self.stores(seq![self.children@[j].0] + t),
    {
        assert forall|t: Seq<Label>| #![trigger self.children@[j].1.stores(t)]
            self.children@[j].1.stores(t) <==> self.stores(seq![self.children@[j].0] + t) by {
            let u = seq![self.children@[j].0] + t;
            assert(u[0] == self.children@[j].0);
            assert(u.skip(1) =~= t);
            self.lemma_stores_through_child(j, u);
        }
    }

    /// With no child keyed by `l`, nothing starting with `l` is stored.
    pub(crate) proof fn lemma_absent_child(self, l: Label)
        requires
            forall|i: int| 0 <= i < self.children@.len() ==> (#[trigger] self.children@[i]).0 != l,
        ensures
            forall|t: Seq<Label>| t.len() > 0 && t[0] == l ==> !(#[trigger] self.stores(t)),
    {
        assert forall|t: Seq<Label>| t.len() > 0 && t[0] == l implies !(#[trigger] self.stores(t)) by {
            if self.stores(t) {
                let i = choose|i: int|
                    0 <= i < self.children@.len() && (#[trigger] self.children@[i]).0 == t[0]
                        && self.children@[i].1.stores(t.skip(1));
                assert(false);
            }
        }
    }

    /// What an exact completion cache holds: no duplicates, and the stored
    /// sequences running through this node, each written out from the root.
    pub(crate) proof fn lemma_indexed_words(self, p: Seq<Label>)
        requires
            self.indexed(p),
        ensures
            word_views(self.subwords@).no_duplicates(),
            forall|s: Seq<Label>|
                #[trigger] word_views(self.subwords@).contains(s) <==> (p.len() <= s.len()
                    && s.take(p.len() as int) == p && self.stores(s.skip(p.len() as int))),
    {
    }

    /// Two non-empty sequences with the same head and the same tail are equal.
    proof fn lemma_head_tail_equal(t: Seq<Label>, s: Seq<Label>)
        requires
            t.len() > 0,
            s.len() > 0,
            t[0] == s[0],
            t.skip(1) == s.skip(1),
        ensures
            t == s,
    {
        assert(t.skip(1).len() == t.len() - 1);
        assert(s.skip(1).len() == s.len() - 1);
        assert forall|k: int| 0 <= k < t.len() implies t[k] == s[k] by {
            if k > 0 {
                assert(t.skip(1)[k - 1] == t[k]);
                assert(s.skip(1)[k - 1] == s[k]);
            }
        }
        assert(t =~= s);
    }

    /// Replacing the child keyed by `e[from]` with a node that stores, beyond
    /// that child's own sequences, exactly the suffix `e.skip(from + 1)` makes
    /// the parent store, beyond its own sequences, exactly `e.skip(from)`.
    proof fn lemma_replaced_child(
        self,
        new: Node<Label>,
        old_child: Node<Label>,
        built: Node<Label>,
        j: int,
        e: Seq<Label>,
        from: int,
    )
        requires
            self.wf(),
            self.pruned(),
            0 <= from < e.len(),
            0 <= j < self.children@.len(),
            self.children@[j].0 == e[from],
            old_child == self.children@[j].1,
            built.wf(),
            built.pruned(),
            forall|t: Seq<Label>| built.stores(t) <==> (old_child.stores(t) || t == e.skip(
                from + 1,
            )),
            new.is_leaf == self.is_leaf,
            new.children@ == self.children@.update(j, (self.children@[j].0, built)),
        ensures
            new.wf(),
            new.pruned(),
            forall|t: Seq<Label>| new.stores(t) <==> (self.stores(t) || t == e.skip(from)),
    {
        let s = e.skip(from);
        assert(s.len() == e.len() - from);
        assert(s[0] == e[from]);
        assert(s.skip(1) =~= e.skip(from + 1));
        assert(built.stores(s.skip(1)));
        assert(new.wf());
        assert forall|i: int| 0 <= i < new.children@.len() implies ((#[trigger] new.children@[i]).1.lives()
            && new.children@[i].1.pruned()) by {
            if i == j {
                assert(new.children@[i].1.stores(s.skip(1)));
            } else {
                assert(new.children@[i] == self.children@[i]);
                assert(self.children@[i].1.lives());
                let t = choose|t: Seq<Label>| self.children@[i].1.stores(t);
                assert(new.children@[i].1.stores(t));
            }
        }
        assert(Self::all_live(new.children@));
        assert(new.pruned());
        assert forall|t: Seq<Label>| new.stores(t) <==> (self.stores(t) || t == e.skip(from)) by {
            if t.len() == 0 {
                assert(t != s);
            } else if t[0] == e[from] {
                if new.stores(t) {
                    let i = choose|i: int|
                        0 <= i < new.children@.len() && (#[trigger] new.children@[i]).0 == t[0]
                            && new.children@[i].1.stores(t.skip(1));
                    assert(new.children@[i].0 == new.children@[j].0);
                    assert(i == j);
                    assert(built.stores(t.skip(1)));
                    if old_child.stores(t.skip(1)) {
                        assert(self.stores(t));
                    } else {
                        assert(t.skip(1) == e.skip(from + 1));
                        Self::lemma_head_tail_equal(t, s);
                    }
                }
                if self.stores(t) {
                    let i = choose|i: int|
                        0 <= i < self.children@.len() && (#[trigger] self.children@[i]).0 == t[0]
                            && self.children@[i].1.stores(t.skip(1));
                    assert(i == j);
                    assert(built.stores(t.skip(1)));
                    assert(new.children@[j].0 == t[0] && new.children@[j].1.stores(t.skip(1)));
                    assert(new.stores(t));
                }
                if t == e.skip(from) {
                    assert(t.skip(1) =~= e.skip(from + 1));
                    assert(built.stores(t.skip(1)));
                    assert(new.children@[j].0 == t[0] && new.children@[j].1.stores(t.skip(1)));
                    assert(new.stores(t));
                }
            } else {
                assert(t != s);
                if new.stores(t) {
                    let i = choose|i: int|
                        0 <= i < new.children@.len() && (#[trigger] new.children@[i]).0 == t[0]
                            && new.children@[i].1.stores(t.skip(1));
                    assert(i != j);
                    assert(self.children@[i].0 == t[0] && self.children@[i].1.stores(t.skip(1)));
                    assert(self.stores(t));
                }
                if self.stores(t) {
                    let i = choose|i: int|
                        0 <= i < self.children@.len() && (#[trigger] self.children@[i]).0 == t[0]
                            && self.children@[i].1.stores(t.skip(1));
                    assert(i != j);
                    assert(new.children@[i].0 == t[0] && new.children@[i].1.stores(t.skip(1)));
                    assert(new.stores(t));
                }
            }
        }
    }

    /// Appending a child keyed by `e[from]`, where no child had that label and
    /// the new child stores exactly the suffix `e.skip(from + 1)`, makes the
    /// parent store, beyond its own sequences, exactly `e.skip(from)`.
    proof fn lemma_appended_child(
        self,
        new: Node<Label>,
        built: Node<Label>,
        e: Seq<Label>,
        from: int,
    )
        requires
            self.wf(),
            self.pruned(),
            0 <= from < e.len(),
            forall|i: int| 0 <= i < self.children@.len() ==> (#[trigger] self.children@[i]).0
                != e[from],
            built.wf(),
            built.pruned(),
            forall|t: Seq<Label>| built.stores(t) <==> t == e.skip(from + 1),
            new.is_leaf == self.is_leaf,
            new.children@ == self.children@.push((e[from], built)),
        ensures
            new.wf(),
            new.pruned(),
            forall|t: Seq<Label>| new.stores(t) <==> (self.stores(t) || t == e.skip(from)),
    {
        let s = e.skip(from);
        let n = self.children@.len() as int;
        assert(s.len() == e.len() - from);
        assert(s[0] == e[from]);
        assert(s.skip(1) =~= e.skip(from + 1));
        assert(built.stores(s.skip(1)));
        assert(new.children@[n] == (e[from], built));
        assert(forall|i: int| 0 <= i < n ==> new.children@[i] == self.children@[i]);
        assert(new.wf());
        assert forall|i: int| 0 <= i < new.children@.len() implies ((#[trigger] new.children@[i]).1.lives()
            && new.children@[i].1.pruned()) by {
            if i == n {
                assert(new.children@[i].1.stores(s.skip(1)));
            } else {
                assert(new.children@[i] == self.children@[i]);
                assert(self.children@[i].1.lives());
                let t = choose|t: Seq<Label>| self.children@[i].1.stores(t);
                assert(new.children@[i].1.stores(t));
            }
        }
        assert(Self::all_live(new.children@));
        assert(new.pruned());
        assert forall|t: Seq<Label>| new.stores(t) <==> (self.stores(t) || t == e.skip(from)) by {
            if t.len() == 0 {
                assert(t != s);
            } else if t[0] == e[from] {
                assert(!self.stores(t)) by {
                    if self.stores(t) {
                        let i = choose|i: int|
                            0 <= i < self.children@.len() && (#[trigger] self.children@[i]).0
                                == t[0] && self.children@[i].1.stores(t.skip(1));
                        assert(false);
                    }
                }
                if new.stores(t) {
                    let i = choose|i: int|
                        0 <= i < new.children@.len() && (#[trigger] new.children@[i]).0 == t[0]
                            && new.children@[i].1.stores(t.skip(1));
                    assert(i == n);
                    assert(t.skip(1) == e.skip(from + 1));
                    Self::lemma_head_tail_equal(t, s);
                }
                if t == e.skip(from) {
                    assert(t.skip(1) =~= e.skip(from + 1));
                    assert(new.children@[n].0 == t[0] && new.children@[n].1.stores(t.skip(1)));
                    assert(new.stores(t));
                }
            } else {
                assert(t != s);
                if new.stores(t) {
                    let i = choose|i: int|
                        0 <= i < new.children@.len() && (#[trigger] new.children@[i]).0 == t[0]
                            && new.children@[i].1.stores(t.skip(1));
                    assert(i != n);
                    assert(self.stores(t));
                }
                if self.stores(t) {
                    let i = choose|i: int|
                        0 <= i < self.children@.len() && (#[trigger] self.children@[i]).0 == t[0]
                            && self.children@[i].1.stores(t.skip(1));
                    assert(new.children@[i].0 == t[0] && new.children@[i].1.stores(t.skip(1)));
                    assert(new.stores(t));
                }
            }
        }
    }
}

impl<Label> Node<Label> {
    /// Membership restricted to the first `j` children: the sequence ends on a
    /// leaf reachable through one of them, or is empty and `is_leaf` holds.
    pub(crate) open spec fn stores_upto(
        is_leaf: bool,
        cs: Seq<(Label, Node<Label>)>,
        j: int,
        t: Seq<Label>,
    ) -> bool {
        if t.len() == 0 {
            is_leaf
        } else {
            exists|i: int|
                0 <= i < j && i < cs.len() && (#[trigger] cs[i]).0 == t[0] && cs[i].1.stores(
                    t.skip(1),
                )
        }
    }
}

impl<Label: Eq + Copy> Node<Label> {
    /// A fresh vector holding the same labels.
    pub(crate) fn copy_word(w: &Vec<Label>) -> (r: Vec<Label>)
        ensures
            r@ == w@,
    {
        let n = w.len();
        let mut r: Vec<Label> = Vec::new();
        let mut k: usize = 0;
        while k < n
            invariant
                n == w@.len(),
                k <= n,
                r@ == w@.take(k as int),
            decreases n - k,
        {
            r.push(w[k]);
            proof {
                assert(r@ =~= w@.take(k as int + 1));
            }
            k = k + 1;
        }
        proof {
            assert(w@.take(n as int) =~= w@);
        }
        r
    }

    /// Appends a copy of every word of `more` to `words`.
    pub(crate) fn append_words(words: &mut Vec<Vec<Label>>, more: &Vec<Vec<Label>>)
        ensures
            word_views(final(words)@) == word_views(old(words)@) + word_views(more@),
    {
        let n = more.len();
        let mut k: usize = 0;
        while k < n
            invariant
                n == more@.len(),
                k <= n,
                word_views(words@) == word_views(old(words)@) + word_views(more@).subrange(
                    0,
                    k as int,
                ),
            decreases n - k,
        {
            let ghost before = words@;
            let w = Self::copy_word(&more[k]);
            words.push(w);
            proof {
                assert(word_views(words@) =~= word_views(before).push(more@[k as int]@));
                assert(word_views(words@) =~= word_views(old(words)@) + word_views(
                    more@,
                ).subrange(0, k as int + 1));
            }
            k = k + 1;
        }
        proof {
            assert(word_views(more@).subrange(0, n as int) =~= word_views(more@));
        }
    }

    /// The position of the child keyed by `label`, if there is one.
    pub(crate) fn find_child_index(children: &Vec<(Label, Node<Label>)>, label: Label) -> (r:
        Option<usize>)
        requires
            obeys_concrete_eq::<Label>(),
        ensures
            match r {
                Some(j) => j < children@.len() && children@[j as int].0 == label,
                None => forall|i: int| 0 <= i < children@.len() ==> (#[trigger] children@[i]).0
                    != label,
            },
    {
        proof {
            reveal(vstd::laws_eq::obeys_concrete_eq);
        }
        let n = children.len();
        let mut j: usize = 0;
        while j < n
            invariant
                n == children@.len(),
                j <= n,
                obeys_concrete_eq::<Label>(),
                forall|i: int| 0 <= i < j ==> (#[trigger] children@[i]).0 != label,
            decreases n - j,
        {
            proof {
                reveal(vstd::laws_eq::obeys_concrete_eq);
            }
            if children[j].0 == label {
                return Some(j);
            }
            j = j + 1;
        }
        None
    }

    /// Rebuilds this subtree's cached completions in one post-order pass. Each
    /// node ends up caching every stored sequence reachable at or below it,
    /// written out from the root; `prefix` spells the path to this node and is
    /// handed back unchanged.
    #[verifier::loop_isolation(false)]
    pub(crate) fn build_node(self, prefix: &mut Vec<Label>) -> (r: Node<Label>)
        requires
            self.wf(),
            self.pruned(),
        ensures
            r.wf(),
            r.pruned(),
            forall|t: Seq<Label>| r.stores(t) <==> self.stores(t),
            r.indexed(old(prefix)@),
            final(prefix)@ == old(prefix)@,
        decreases self,
    {
        let ghost p = prefix@;
        let ghost pl = p.len() as int;
        let Node { is_leaf, subwords: _, children } = self;
        let ghost cs = children@;
        let mut words: Vec<Vec<Label>> = Vec::new();
        if is_leaf {
            let w = Self::copy_word(prefix);
            words.push(w);
        }
        proof {
            assert forall|s: Seq<Label>| #[trigger] word_views(words@).contains(s) <==> (pl
                <= s.len() && s.take(pl) == p && Self::stores_upto(is_leaf, cs, 0, s.skip(pl))) by {
                if word_views(words@).contains(s) {
                    let i = choose|i: int|
                        0 <= i < word_views(words@).len() && word_views(words@)[i] == s;
                    assert(s == p);
                    assert(s.take(pl) =~= p);
                    assert(s.skip(pl).len() == 0);
                }
                if pl <= s.len() && s.take(pl) == p && Self::stores_upto(is_leaf, cs, 0, s.skip(pl))
                {
                    assert(s.skip(pl).len() == 0);
                    assert(s.len() == pl);
                    assert(s.take(pl) =~= s);
                    assert(is_leaf);
                    assert(word_views(words@)[0] == s);
                }
            }
        }
        proof {
            assert(Self::all_live(cs));
        }
        let mut rest = children;
        let mut done: Vec<(Label, Node<Label>)> = Vec::new();
        while rest.len() > 0
            invariant
                pl == p.len(),
                done@.len() + rest@.len() == cs.len(),
                rest@ == cs.skip(done@.len() as int),
                prefix@ == p,
                forall|i: int, j: int| 0 <= i < j < cs.len() ==> (#[trigger] cs[i]).0 != (
                #[trigger] cs[j]).0,
                forall|i: int| 0 <= i < cs.len() ==> (#[trigger] cs[i]).1.wf(),
                forall|i: int| 0 <= i < cs.len() ==> (#[trigger] cs[i]).1.pruned(),
                Self::all_live(cs),
                forall|i: int| 0 <= i < done@.len() ==> (#[trigger] done@[i]).0 == cs[i].0,
                forall|i: int| 0 <= i < done@.len() ==> (#[trigger] done@[i]).1.wf(),
                forall|i: int| 0 <= i < done@.len() ==> (#[trigger] done@[i]).1.pruned(),
                forall|i: int| 0 <= i < done@.len() ==> (#[trigger] done@[i]).1.indexed(
                    p.push(cs[i].0),
                ),
                forall|i: int, u: Seq<Label>|
                    0 <= i < done@.len() ==> ((#[trigger] done@[i].1.stores(u)) <==> cs[i].1.stores(
                        u,
                    )),
                word_views(words@).no_duplicates(),
                forall|s: Seq<Label>| #[trigger] word_views(words@).contains(s) <==> (pl <= s.len()
                    && s.take(pl) == p && Self::stores_upto(
                    is_leaf,
                    cs,
                    done@.len() as int,
                    s.skip(pl),
                )),
            decreases rest@.len(),
        {
            let ghost j = done@.len() as int;
            let (label, child) = rest.remove(0);
            proof {
                assert(rest@ =~= cs.skip(j + 1));
                assert((label, child) == cs[j]);
                assert(decreases_to!(self => self.children@[j].1));
                assert(child.wf() && child.pruned());
            }
            prefix.push(label);
            let built = child.build_node(prefix);
            prefix.pop();
            proof {
                assert(prefix@ =~= p);
            }
            let ghost words_before = words@;
            Self::append_words(&mut words, &built.subwords);
            done.push((label, built));
            proof {
                let ghost q = p.push(label);
                let ghost aw = word_views(words_before);
                let ghost bw = word_views(built.subwords@);
                assert(built.indexed(q));
                assert forall|s: Seq<Label>| aw.contains(s) implies !bw.contains(s) by {
                    if aw.contains(s) && bw.contains(s) {
                        let t = s.skip(pl);
                        assert(q.len() <= s.len() && s.take(q.len() as int) == q);
                        Self::lemma_take_push(s, p, label);
                        assert(t.len() > 0);
                        assert(t[0] == s[pl]);
                        assert(s[pl] == label);
                        let i = choose|i: int|
                            0 <= i < j && i < cs.len() && (#[trigger] cs[i]).0 == t[0]
                                && cs[i].1.stores(t.skip(1));
                        assert(cs[i].0 != cs[j].0);
                        assert(false);
                    }
                }
                Self::lemma_no_dup_concat(aw, bw);
                assert forall|s: Seq<Label>| #[trigger] word_views(words@).contains(s) <==> (pl
                    <= s.len() && s.take(pl) == p && Self::stores_upto(
                    is_leaf,
                    cs,
                    j + 1,
                    s.skip(pl),
                )) by {
                    let t = s.skip(pl);
                    Self::lemma_contains_concat(aw, bw, s);
                    Self::lemma_stores_upto_step(is_leaf, cs, j, t);
                    if pl + 1 <= s.len() {
                        Self::lemma_take_push(s, p, label);
                        assert(t.skip(1) =~= s.skip(pl + 1));
                        assert(t.len() > 0 && t[0] == s[pl]);
                    }
                    if bw.contains(s) {
                        assert(q.len() <= s.len() && s.take(q.len() as int) == q && built.stores(
                            s.skip(q.len() as int),
                        ));
                        assert(cs[j].1.stores(t.skip(1)));
                    }
                    if pl <= s.len() && s.take(pl) == p && t.len() > 0 && cs[j].0 == t[0]
                        && cs[j].1.stores(t.skip(1)) {
                        assert(built.stores(s.skip(pl + 1)));
                        assert(s.take(pl + 1) == q);
                        assert(bw.contains(s));
                    }
                }
            }
        }
        let r = Node { is_leaf, subwords: words, children: done };
        proof {
            let ghost n = cs.len() as int;
            assert(done@.len() == n);
            assert(r.wf());
            assert forall|i: int| 0 <= i < n implies ((#[trigger] r.children@[i]).1.lives()
                && r.children@[i].1.pruned()) by {
                assert(cs[i].1.lives());
                let t = choose|t: Seq<Label>| cs[i].1.stores(t);
                assert(done@[i].1.stores(t));
                assert(r.children@[i].1.stores(t));
            }
            assert(Self::all_live(r.children@));
            assert(r.pruned());
            assert forall|t: Seq<Label>| r.stores(t) <==> self.stores(t) by {
                r.lemma_stores_upto_full(t);
                Self::lemma_stores_upto_equiv(is_leaf, done@, cs, n, t);
                self.lemma_stores_upto_full(t);
            }
            assert forall|i: int| 0 <= i < n implies (#[trigger] r.children@[i]).1.indexed(
                p.push(r.children@[i].0),
            ) by {
                assert(done@[i].1.indexed(p.push(cs[i].0)));
            }
            assert forall|s: Seq<Label>| #[trigger] word_views(r.subwords@).contains(s) <==> (pl
                <= s.len() && s.take(pl) == p && r.stores(s.skip(pl))) by {
                let t = s.skip(pl);
                r.lemma_stores_upto_full(t);
                Self::lemma_stores_upto_equiv(is_leaf, done@, cs, n, t);
            }
            assert(r.indexed(p));
        }
        r
    }

    /// Inserts the suffix `element[from..]` below this node, creating only the
    /// nodes that do not already exist, and marks the final node as a leaf.
    pub(crate) fn push_node(self, element: &[Label], from: usize) -> (r: Node<Label>)
        requires
            self.wf(),
            self.pruned(),
            from <= element@.len(),
            obeys_concrete_eq::<Label>(),
        ensures
            r.wf(),
            r.pruned(),
            forall|t: Seq<Label>| r.stores(t) <==> (self.stores(t) || t == element@.skip(
                from as int,
            )),
            r.node_count() as int == self.node_count() + (element@.len() - from)
                - self.reach_depth(element@.skip(from as int)),
        decreases element@.len() - from,
    {
        let mut this = self;
        if from == element.len() {
            this.is_leaf = true;
            proof {
                assert forall|t: Seq<Label>| this.stores(t) <==> (self.stores(t) || t
                    == element@.skip(from as int)) by {
                    if t.len() == 0 {
                        assert(t =~= element@.skip(from as int));
                        assert(this.stores(t));
                    } else {
                        assert(element@.skip(from as int).len() == 0);
                        if this.stores(t) {
                            let i = choose|i: int|
                                0 <= i < this.children@.len() && (#[trigger] this.children@[i]).0
                                    == t[0] && this.children@[i].1.stores(t.skip(1));
                            assert(self.children@[i].0 == t[0] && self.children@[i].1.stores(
                                t.skip(1),
                            ));
                            assert(self.stores(t));
                        }
                        if self.stores(t) {
                            let i = choose|i: int|
                                0 <= i < self.children@.len() && (#[trigger] self.children@[i]).0
                                    == t[0] && self.children@[i].1.stores(t.skip(1));
                            assert(this.children@[i].0 == t[0] && this.children@[i].1.stores(
                                t.skip(1),
                            ));
                            assert(this.stores(t));
                        }
                    }
                }
                assert(this.wf());
                assert(this.pruned());
                Self::lemma_count_upto_agree(this, self, self.children@.len() as int);
                assert(this.node_count() == self.node_count());
                assert(self.reach_depth(element@.skip(from as int)) == 0);
            }
            this
        } else {
            let label = element[from];
            match Self::find_child_index(&this.children, label) {
                Some(j) => {
                    let (lab, child) = this.children.remove(j);
                    let ghost old_child = child;
                    let built = child.push_node(element, from + 1);
                    this.children.insert(j, (lab, built));
                    proof {
                        assert(this.children@ =~= self.children@.update(
                            j as int,
                            (self.children@[j as int].0, built),
                        ));
                        self.lemma_replaced_child(this, old_child, built, j as int, element@,
                            from as int);
                        let t0 = element@.skip(from as int);
                        assert(t0.len() > 0);
                        assert(t0[0] == element@[from as int]);
                        assert(self.children@[j as int].0 == t0[0]);
                        assert(exists|i: int|
                            0 <= i < self.children@.len() && (#[trigger] self.children@[i]).0
                                == t0[0]);
                        let i0 = choose|i: int|
                            0 <= i < self.children@.len() && (#[trigger] self.children@[i]).0
                                == t0[0];
                        assert(i0 == j);
                        assert(t0.skip(1) =~= element@.skip(from as int + 1));
                        assert(self.reach_depth(t0) == 1 + self.children@[j as int].1.reach_depth(
                            element@.skip(from as int + 1),
                        ));
                        Self::lemma_count_upto_update(
                            self,
                            this,
                            j as int,
                            self.children@.len() as int,
                        );
                        assert(this.node_count() as int == self.node_count()
                            + built.node_count() - old_child.node_count());
                    }
                    this
                },
                None => {
                    let fresh = Node { is_leaf: false, subwords: Vec::new(), children: Vec::new() };
                    proof {
                        assert forall|t: Seq<Label>| !fresh.stores(t) by {
                            if t.len() > 0 {
                                assert(fresh.children@.len() == 0);
                            }
                        }
                    }
                    let built = fresh.push_node(element, from + 1);
                    this.children.push((label, built));
                    proof {
                        self.lemma_appended_child(this, built, element@, from as int);
                        let t0 = element@.skip(from as int);
                        assert(t0.len() > 0);
                        assert(t0[0] == element@[from as int]);
                        assert(self.reach_depth(t0) == 0) by {
                            if exists|i: int|
                                0 <= i < self.children@.len() && (#[trigger] self.children@[i]).0
                                    == t0[0] {
                                let i0 = choose|i: int|
                                    0 <= i < self.children@.len() && (
                                    #[trigger] self.children@[i]).0 == t0[0];
                                assert(false);
                            }
                        }
                        assert(fresh.children@.len() == 0);
                        assert(fresh.node_count() == 1);
                        assert(fresh.reach_depth(element@.skip(from as int + 1)) == 0) by {
                            if element@.skip(from as int + 1).len() > 0 {
                                if exists|i: int|
                                    0 <= i < fresh.children@.len() && (
                                    #[trigger] fresh.children@[i]).0 == element@.skip(
                                        from as int + 1,
                                    )[0] {
                                    let i0 = choose|i: int|
                                        0 <= i < fresh.children@.len() && (
                                        #[trigger] fresh.children@[i]).0 == element@.skip(
                                            from as int + 1,
                                        )[0];
                                    assert(false);
                                }
                            }
                        }
                        let n0 = self.children@.len() as int;
                        Self::lemma_count_upto_agree(this, self, n0);
                        assert(this.children@[n0].1 == built);
                        assert(this.count_upto(n0 + 1) == this.count_upto(n0)
                            + built.node_count());
                        assert(this.node_count() as int == self.node_count()
                            + built.node_count());
                    }
                    this
                },
            }
        }
    }
}

impl<Label> Default for Node<Label> {
    /// A fresh node: no leaf mark, no cached completions, no children.
    fn default() -> (r: Self)
        ensures
            r.wf(),
            r.pruned(),
            forall|t: Seq<Label>| !r.stores(t),
    {
        Node { is_leaf: false, subwords: Vec::new(), children: Vec::new() }
    }
}

} // verus!
