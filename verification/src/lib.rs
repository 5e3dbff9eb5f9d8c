//! An embedded ordered key-value store over 64-bit signed integer keys and
//! values, organised as a log-structured merge tree.
//!
//! Every module states the behaviour of its functions as contracts over
//! mathematical models (`Seq`, `Map`, `int`), and the contracts are proved.

pub mod types;
pub mod system_info;
pub mod algorithm;
pub mod serde_entry;
pub mod btree_info;
pub mod serde_util;
pub mod serde_btree;
pub mod extendible_hash_table;
pub mod buffer_pool;
pub mod direct_io;
pub mod file_interface;
pub mod filename;
pub mod hash_key;
pub mod sst_util;
pub mod array_sst;
pub mod merge_k_lists;
pub mod hash;
pub mod bloom_util;
pub mod bloom_filter;
pub mod bloom_io;
pub mod btree_util;
pub mod btree_sst;
pub mod sst;
pub mod avl;
pub mod memtable;
pub mod db;
