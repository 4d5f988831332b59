pub mod allocator;
pub mod bucket;
pub mod entry;
pub mod hash_map;
pub mod laws;
pub mod list_bucket;
pub mod numbers;
pub mod raw_map;
pub mod rbtree;
pub mod tree_bucket;
pub mod hash_table;
