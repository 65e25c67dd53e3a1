//! Hash tables for a key-value benchmark server: striped tables of tagged
//! buckets, map adapters, and the request protocols that drive them.
pub mod buckets;
pub mod hashmap;
pub mod hashmaps;
pub mod laws;
pub mod striped_hash_table;
pub mod adapters;
pub mod protocol;
pub mod collections;
pub mod text;
pub mod text_protocol;
pub mod server;
pub mod sharded_map_handler;
