//! Prefix index over file names: an arena trie per shard, the stored form of
//! a shard, the rules that pick and screen paths, and the planning of index
//! updates from change events.
pub mod codec;
pub mod events;
pub mod index;
pub mod paths;
pub mod trie;
