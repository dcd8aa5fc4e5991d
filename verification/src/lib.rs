//! Verified in-memory containers: a self-balancing ordered map and its
//! simpler relatives.
pub mod avl_tree;
pub mod bs_tree;
pub mod hash_keys;
pub mod heap;
pub mod linked_list;
pub mod lru_cache;
pub mod order;
pub mod sync;
pub mod trie;
