use crate::trie::Trie;
use vstd::prelude::*;

verus! {

/// Round-trip membership: a stored sequence extends itself, so an exact
/// completion list for it — what `search` returns whenever the index is
/// current — must list it, and lists nothing twice.
pub proof fn lemma_round_trip<Label>(t: Trie<Label>, s: Seq<Label>, ws: Seq<Seq<Label>>)
    requires
        t@.contains(s),
        ws.no_duplicates(),
        forall|w: Seq<Label>| #[trigger] ws.contains(w) <==> (t@.contains(w) && s.is_prefix_of(w)),
    ensures
        exists|w: Seq<Label>| t@.contains(w) && s.is_prefix_of(w),
        ws.contains(s),
{
    assert(s =~= s.subrange(0, s.len() as int));
    assert(t@.contains(s) && s.is_prefix_of(s));
}

/// Idempotent insertion: pushing a sequence twice leaves the same stored set
/// as pushing it once. `push` states that the stored set only gains the
/// pushed sequence, and both query contracts depend on the trie through that
/// set alone, so repeated pushes change no query result.
pub proof fn lemma_push_idempotent<Label>(stored: Set<Seq<Label>>, s: Seq<Label>)
    ensures
        stored.insert(s).insert(s) == stored.insert(s),
{
    assert(stored.insert(s).insert(s) =~= stored.insert(s));
}

} // verus!
