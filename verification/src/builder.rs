use crate::trie::Trie;
use vstd::laws_eq::obeys_concrete_eq;
use vstd::prelude::*;

verus! {

/// A staging wrapper around a `Trie`: it accumulates insertions and is
/// consumed by `build`, which hands out the finished trie and, when asked at
/// creation, builds its search index at that point.
#[derive(Debug)]
pub struct TrieBuilder<Label> {
    build_search_index: bool,
    trie: Trie<Label>,
}

impl<Label> TrieBuilder<Label> {
    /// The accumulated trie is well formed and its index not yet built: the
    /// build happens, at most once, when the builder is consumed.
    pub closed spec fn wf(self) -> bool {
        self.trie.wf() && !self.trie.has_index()
    }

    /// Whether finalizing will build the search index.
    pub closed spec fn will_index(self) -> bool {
        self.build_search_index
    }
}

impl<Label> View for TrieBuilder<Label> {
    type V = Set<Seq<Label>>;

    /// The set of sequences pushed so far.
    closed spec fn view(&self) -> Set<Seq<Label>> {
        self.trie@
    }
}

impl<Label: Eq + Copy> TrieBuilder<Label> {
    /// A fresh builder with nothing pushed; `build_search_index` fixes, once
    /// and for all, whether `build` will also build the search index.
    pub fn new(build_search_index: bool) -> (r: Self)
        ensures
            r.wf(),
            r@ == Set::<Seq<Label>>::empty(),
            r.will_index() == build_search_index,
    {
        Self { build_search_index, trie: Trie::default() }
    }

    /// Inserts the given sequence into the trie being accumulated.
    pub fn push(&mut self, element: &[Label])
        requires
            old(self).wf(),
            obeys_concrete_eq::<Label>(),
        ensures
            final(self).wf(),
            final(self)@ == old(self)@.insert(element@),
            final(self).will_index() == old(self).will_index(),
    {
        self.trie.push(element);
    }

    /// Consumes the builder and returns the finished trie, its index built
    /// now when the builder was created with that policy.
    pub fn build(self) -> (t: Trie<Label>)
        requires
            self.wf(),
        ensures
            t.wf(),
            t@ == self@,
            t.has_index() == self.will_index(),
            self.will_index() ==> t.index_current(),
    {
        let mut this = self;
        if this.build_search_index {
            this.trie.build_index();
        }
        this.trie
    }
}

} // verus!
