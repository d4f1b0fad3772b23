//! A persistent (immutable, structurally shared) map implemented as a hash
//! array mapped trie.  Every mutating operation either works in place on a
//! uniquely owned handle or returns a new handle, leaving all previously
//! obtained handles valid and unchanged; unchanged subtrees are shared
//! between versions through reference-counted pointers.

pub mod iter;
pub mod keys;
pub mod laws;
pub mod list;
pub mod map;
pub mod node;
mod shared_ptr;
pub mod sparse_array_usize;

pub use keys::DefaultHashProvider;
pub use keys::HashProvider;
pub use keys::MapKey;
pub use keys::MapValue;
pub use keys::MaskHashProvider;
pub use keys::hash;
pub use node::Entry;
pub use node::EntryWithHash;
pub use node::index_from_hash;
pub use node::list_remove_first;
pub use map::HashTrieMap;
pub use map::HashTrieMapSync;
pub use map::is_valid_degree;
pub use iter::IterPtr;
pub use iter::trie_max_height;
