//! A prefix trie: a key/value container keyed by hierarchical bit-string
//! prefixes, supporting exact lookup, longest-prefix match, subtree
//! ("children") queries and ancestor ("cover") queries.
//!
//! Keys are types implementing [`prefix::Prefix`]; every key denotes a finite
//! bit string, and one key contains another when its bit string is an initial
//! segment of the other's.  The trie itself is an array-backed binary tree of
//! nodes, each holding a prefix, an optional value and optional left/right
//! child indices.

pub mod bits;
pub mod entry;
pub mod inner;
pub mod laws;
pub mod map;
pub mod prefix;
pub mod trieview;

pub use entry::{Entry, OccupiedEntry, VacantEntry};
pub use map::PrefixMap;
pub use map::iter::{Cover, CoverKeys, CoverValues, IntoIter, IntoKeys, IntoValues, Iter, Keys, Values};
pub use prefix::{BitPrefix, Prefix, to_right};
pub use trieview::{AsView, AsViewMut, TrieView, TrieViewMut};
