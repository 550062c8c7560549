//! A prefix tree (trie) over sequences of copyable symbols, with two query
//! modes: `search` lists every stored sequence that extends the query (it
//! needs a precomputed index), and `common_prefix_search` lists every stored
//! sequence that is a prefix of the query (it needs no index).

mod builder;
mod laws;
mod node;
mod trie;

pub use builder::TrieBuilder;
pub use laws::lemma_push_idempotent;
pub use laws::lemma_round_trip;
pub use node::Node;
pub use trie::Trie;
pub use trie::TrieError;
