use crate::node::word_views;
use crate::node::Node;
use vstd::laws_eq::obeys_concrete_eq;
use vstd::prelude::*;

verus! {

/// Why a continuation search returned nothing.
#[derive(Debug, Clone)]
pub enum TrieError {
    /// `search` was called on a trie whose index was never built; run
    /// `build_index` first.
    IndexNotBuilt,
    /// The trie has no path spelling the query: no stored sequence starts
    /// with it.
    NoResultFound,
}

/// A prefix tree over sequences of symbols. `push` inserts a sequence,
/// `build_index` caches per-node completion lists, `search` lists the stored
/// sequences extending a query, and `common_prefix_search` lists the stored
/// sequences that are prefixes of a query.
#[derive(Debug)]
pub struct Trie<Label> {
    has_search_index: bool,
    root: Node<Label>,
}

impl<Label> Trie<Label> {
    /// The structure is a well-formed trie: child labels are unique, so each
    /// sequence has one path, and every node lies on a stored sequence's path.
    pub closed spec fn wf(self) -> bool {
        self.root.wf() && self.root.pruned()
    }

    /// Whether an index build was ever run on this trie.
    pub closed spec fn has_index(self) -> bool {
        self.has_search_index
    }

    /// The cached completion lists agree with the stored sequences: the index
    /// was built and no insertion has happened since.
    pub closed spec fn index_current(self) -> bool {
        self.has_search_index && self.root.indexed(Seq::empty())
    }

    /// The number of nodes in the trie, the root included.
    pub closed spec fn node_count(self) -> nat {
        self.root.node_count()
    }

    /// How many leading symbols of `q` already have a path in the trie: the
    /// part of `q` an insertion would walk through without creating nodes.
    pub closed spec fn reach_depth(self, q: Seq<Label>) -> nat {
        self.root.reach_depth(q)
    }

    /// Prefix sharing: when a stored sequence `a` and a sequence `b` begin
    /// with the same prefix `p`, the single path already spelling `p` serves
    /// `b` too, so at least `p.len()` of `b`'s symbols have their path in the
    /// trie already. With the node-count clause of `push`, inserting `b` then
    /// creates at most `b.len() - p.len()` nodes: the shared prefix is never
    /// duplicated.
    pub proof fn lemma_prefix_sharing(self, a: Seq<Label>, b: Seq<Label>, p: Seq<Label>)
        requires
            self.wf(),
            self@.contains(a),
            p.is_prefix_of(a),
            p.is_prefix_of(b),
        ensures
            self.reach_depth(b) >= p.len(),
    {
        assert(self.root.stores(a));
        assert forall|i: int| 0 <= i < p.len() implies a[i] == b[i] by {
            assert(a.subrange(0, p.len() as int)[i] == a[i]);
            assert(b.subrange(0, p.len() as int)[i] == b[i]);
        }
        self.root.lemma_reach_depth_of_stored_prefix(a, b, p.len() as int);
    }
}

impl<Label> View for Trie<Label> {
    type V = Set<Seq<Label>>;

    /// The set of stored sequences.
    closed spec fn view(&self) -> Set<Seq<Label>> {
        Set::new(|s: Seq<Label>| self.root.stores(s))
    }
}

impl<Label> Default for Trie<Label> {
    /// An empty trie: nothing stored, no index.
    fn default() -> (r: Self)
        ensures
            r.wf(),
            r@ == Set::<Seq<Label>>::empty(),
            !r.has_index(),
    {
        let r = Trie { has_search_index: false, root: Node::default() };
        proof {
            assert(r@ =~= Set::<Seq<Label>>::empty());
        }
        r
    }
}

impl<Label: Eq + Copy> Trie<Label> {
    /// Inserts the given sequence as a member of the trie, creating only the
    /// nodes that do not already exist: shared prefixes reuse existing nodes.
    /// A later `search` only reflects it after a new `build_index`.
    pub fn push(&mut self, element: &[Label])
        requires
            old(self).wf(),
            obeys_concrete_eq::<Label>(),
        ensures
            final(self).wf(),
            final(self)@ == old(self)@.insert(element@),
            final(self).has_index() == old(self).has_index(),
            final(self).node_count() as int == old(self).node_count() + element@.len() - old(
                self,
            ).reach_depth(element@),
    {
        let mut root = Node::default();
        core::mem::swap(&mut self.root, &mut root);
        let built = root.push_node(element, 0);
        self.root = built;
        proof {
            assert(element@.skip(0) =~= element@);
            assert(self@ =~= old(self)@.insert(element@));
        }
    }

    /// Walks the whole trie once, bottom-up, caching at every node the list
    /// of stored sequences reachable at or below it; from then on `search`
    /// answers from those caches.
    pub fn build_index(&mut self)
        requires
            old(self).wf(),
        ensures
            final(self).wf(),
            final(self)@ == old(self)@,
            final(self).has_index(),
            final(self).index_current(),
    {
        let mut root = Node::default();
        core::mem::swap(&mut self.root, &mut root);
        let mut prefix: Vec<Label> = Vec::new();
        let ghost empty_prefix = prefix@;
        let built = root.build_node(&mut prefix);
        self.root = built;
        self.has_search_index = true;
        proof {
            assert(empty_prefix =~= Seq::<Label>::empty());
            assert(self@ =~= old(self)@);
        }
    }

    /// Lists every stored sequence that has the query as a prefix, the query
    /// itself included, by walking one node per query symbol and returning
    /// the completion list cached there.
    ///
    /// Fails with `IndexNotBuilt` when no index build was ever run, and with
    /// `NoResultFound` when the trie has no path for the query. When the path
    /// exists the cached list is returned as it stands; it is exact whenever
    /// no insertion followed the last index build.
    #[verifier::loop_isolation(false)]
    pub fn search(&self, element: &[Label]) -> (r: Result<&Vec<Vec<Label>>, TrieError>)
        requires
            self.wf(),
            obeys_concrete_eq::<Label>(),
        ensures
            match r {
                Err(TrieError::IndexNotBuilt) => !self.has_index(),
                Err(TrieError::NoResultFound) => self.has_index() && element@.len() > 0 && (forall|
                    s: Seq<Label>,
                |
                    self@.contains(s) ==> !element@.is_prefix_of(s)),
                Ok(ws) => {
                    &&& self.has_index()
                    &&& (element@.len() == 0 || exists|s: Seq<Label>|
                        self@.contains(s) && element@.is_prefix_of(s))
                    &&& (self.index_current() ==> word_views(ws@).no_duplicates())
                    &&& (self.index_current() ==> (forall|s: Seq<Label>|
                        #[trigger] word_views(ws@).contains(s) <==> (self@.contains(s)
                            && element@.is_prefix_of(s))))
                },
            },
    {
        if !self.has_search_index {
            return Err(TrieError::IndexNotBuilt);
        }
        let n = element.len();
        let mut node = &self.root;
        let mut k: usize = 0;
        proof {
            assert(element@.take(0) =~= Seq::<Label>::empty());
            assert forall|t: Seq<Label>| #![trigger self.root.stores(t)]
                self.root.stores(t) <==> self.root.stores(element@.take(0) + t) by {
                assert(element@.take(0) + t =~= t);
            }
        }
        while k < n
            invariant
                k <= n,
                node.wf(),
                node.pruned(),
                k > 0 ==> node.lives(),
                forall|t: Seq<Label>| #![trigger node.stores(t)]
                    node.stores(t) <==> self.root.stores(element@.take(k as int) + t),
                self.index_current() ==> node.indexed(element@.take(k as int)),
            decreases n - k,
        {
            let ghost kk = k as int;
            match Node::find_child_index(&node.children, element[k]) {
                Some(j) => {
                    let next = &node.children[j].1;
                    proof {
                        node.lemma_child_step(j as int, element@.take(kk));
                        assert forall|t: Seq<Label>| #![trigger next.stores(t)]
                            next.stores(t) <==> self.root.stores(element@.take(kk + 1) + t) by {
                            let u = seq![element@[kk]] + t;
                            assert(node.children@[j as int].1.stores(t) <==> node.stores(
                                seq![node.children@[j as int].0] + t,
                            ));
                            assert(element@.take(kk) + u =~= element@.take(kk + 1) + t);
                            assert(node.stores(u) <==> self.root.stores(element@.take(kk) + u));
                        }
                        if self.index_current() {
                            assert(node.children@[j as int].1.indexed(
                                element@.take(kk).push(node.children@[j as int].0),
                            ));
                            assert(element@.take(kk).push(element@[kk]) =~= element@.take(kk + 1));
                        }
                    }
                    node = next;
                    k = k + 1;
                },
                None => {
                    proof {
                        node.lemma_absent_child(element@[kk]);
                        assert forall|s: Seq<Label>| self@.contains(s) implies !element@.is_prefix_of(
                            s,
                        ) by {
                            if element@.is_prefix_of(s) {
                                let t = s.skip(kk);
                                assert(element@.take(kk) + t =~= s);
                                assert(node.stores(t));
                                assert(t.len() > 0);
                                assert(t[0] == s[kk]);
                                assert(s[kk] == element@[kk]);
                                assert(!node.stores(t));
                            }
                        }
                    }
                    return Err(TrieError::NoResultFound);
                },
            }
        }
        proof {
            let nl = element@.len() as int;
            assert(element@.take(nl) =~= element@);
            if n > 0 {
                let t = choose|t: Seq<Label>| node.stores(t);
                assert(self.root.stores(element@ + t));
                assert(element@ =~= (element@ + t).subrange(0, nl));
                assert(self@.contains(element@ + t) && element@.is_prefix_of(element@ + t));
            }
            if self.index_current() {
                assert(node.indexed(element@));
                node.lemma_indexed_words(element@);
                assert forall|s: Seq<Label>| #[trigger] word_views(node.subwords@).contains(s)
                    <==> (self@.contains(s) && element@.is_prefix_of(s)) by {
                    if nl <= s.len() {
                        if word_views(node.subwords@).contains(s) {
                            assert(s.take(nl) == element@ && node.stores(s.skip(nl)));
                            assert(element@ + s.skip(nl) =~= s);
                            assert(self.root.stores(s));
                            assert(element@ =~= s.subrange(0, nl));
                        }
                        if self@.contains(s) && element@.is_prefix_of(s) {
                            assert(element@ == s.subrange(0, nl));
                            assert(s.take(nl) == element@);
                            assert(element@ + s.skip(nl) =~= s);
                            assert(node.stores(s.skip(nl)));
                        }
                    }
                }
            }
        }
        Ok(&node.subwords)
    }

    /// Lists every stored sequence that is a prefix of the query, shortest
    /// first, by walking along the query and collecting the accumulated
    /// prefix at each leaf mark. Needs no index and never fails: a query
    /// sharing no path with the trie yields an empty list.
    #[verifier::loop_isolation(false)]
    pub fn common_prefix_search(&self, element: &[Label]) -> (results: Vec<Vec<Label>>)
        requires
            self.wf(),
            obeys_concrete_eq::<Label>(),
        ensures
            forall|i: int|
                0 <= i < results@.len() ==> ((#[trigger] results@[i])@.len() >= 1
                    && results@[i]@.is_prefix_of(element@) && self@.contains(results@[i]@)),
            forall|i: int, j: int|
                0 <= i < j < results@.len() ==> (#[trigger] results@[i])@.len() < (
                #[trigger] results@[j])@.len(),
            forall|s: Seq<Label>|
                (s.len() >= 1 && s.is_prefix_of(element@) && self@.contains(s))
                    ==> #[trigger] word_views(results@).contains(s),
    {
        let n = element.len();
        let mut node = &self.root;
        let mut results: Vec<Vec<Label>> = Vec::new();
        let mut prefix: Vec<Label> = Vec::new();
        let mut k: usize = 0;
        proof {
            assert(element@.take(0) =~= Seq::<Label>::empty());
            assert forall|t: Seq<Label>| #![trigger self.root.stores(t)]
                self.root.stores(t) <==> self.root.stores(element@.take(0) + t) by {
                assert(element@.take(0) + t =~= t);
            }
        }
        while k < n
            invariant
                k <= n,
                prefix@ == element@.take(k as int),
                node.wf(),
                forall|t: Seq<Label>| #![trigger node.stores(t)]
                    node.stores(t) <==> self.root.stores(element@.take(k as int) + t),
                forall|i: int|
                    0 <= i < results@.len() ==> ((#[trigger] results@[i])@.len() >= 1
                        && results@[i]@.len() <= k && results@[i]@.is_prefix_of(element@)
                        && self@.contains(results@[i]@)),
                forall|i: int, j: int|
                    0 <= i < j < results@.len() ==> (#[trigger] results@[i])@.len() < (
                    #[trigger] results@[j])@.len(),
                forall|s: Seq<Label>|
                    (1 <= s.len() <= k && s.is_prefix_of(element@) && self@.contains(s))
                        ==> #[trigger] word_views(results@).contains(s),
            decreases n - k,
        {
            let ghost kk = k as int;
            let label = element[k];
            prefix.push(label);
            proof {
                assert(prefix@ =~= element@.take(kk + 1));
            }
            match Node::find_child_index(&node.children, label) {
                Some(j) => {
                    let next = &node.children[j].1;
                    proof {
                        node.lemma_child_step(j as int, element@.take(kk));
                        assert forall|t: Seq<Label>| #![trigger next.stores(t)]
                            next.stores(t) <==> self.root.stores(element@.take(kk + 1) + t) by {
                            let u = seq![element@[kk]] + t;
                            assert(node.children@[j as int].1.stores(t) <==> node.stores(
                                seq![node.children@[j as int].0] + t,
                            ));
                            assert(element@.take(kk) + u =~= element@.take(kk + 1) + t);
                            assert(node.stores(u) <==> self.root.stores(element@.take(kk) + u));
                        }
                    }
                    node = next;
                    k = k + 1;
                    proof {
                        node.lemma_stores_empty();
                        assert(element@.take(k as int) + Seq::<Label>::empty() =~= element@.take(
                            k as int,
                        ));
                        assert(element@.take(k as int) =~= element@.subrange(0, k as int));
                    }
                    if node.is_leaf {
                        let ghost before = results@;
                        let word = Node::copy_word(&prefix);
                        results.push(word);
                        proof {
                            assert(self@.contains(element@.take(k as int)));
                            assert forall|s: Seq<Label>|
                                (1 <= s.len() <= k && s.is_prefix_of(element@) && self@.contains(
                                    s,
                                )) implies #[trigger] word_views(results@).contains(s) by {
                                if s.len() < k {
                                    assert(word_views(before).contains(s));
                                    let i = choose|i: int|
                                        0 <= i < word_views(before).len() && word_views(before)[i]
                                            == s;
                                    assert(word_views(results@)[i] == s);
                                } else {
                                    assert(s =~= element@.take(k as int));
                                    assert(word_views(results@)[results@.len() - 1] == s);
                                }
                            }
                        }
                    } else {
                        proof {
                            assert forall|s: Seq<Label>|
                                (1 <= s.len() <= k && s.is_prefix_of(element@) && self@.contains(
                                    s,
                                )) implies #[trigger] word_views(results@).contains(s) by {
                                if s.len() == k {
                                    assert(s =~= element@.take(k as int));
                                    assert(self.root.stores(element@.take(k as int)));
                                    assert(node.stores(Seq::<Label>::empty()));
                                }
                            }
                        }
                    }
                },
                None => {
                    proof {
                        node.lemma_absent_child(element@[kk]);
                        assert forall|s: Seq<Label>|
                            (s.len() >= 1 && s.is_prefix_of(element@) && self@.contains(s)) implies
                            #[trigger] word_views(results@).contains(s) by {
                            if s.len() > k {
                                let t = s.skip(kk);
                                assert(element@.take(kk) + t =~= s);
                                assert(node.stores(t));
                                assert(t.len() > 0);
                                assert(t[0] == s[kk]);
                                assert(s[kk] == element@[kk]);
                                assert(!node.stores(t));
                            }
                        }
                    }
                    return results;
                },
            }
        }
        results
    }
}

} // verus!
