//! An in-memory, probabilistically balanced ordered index: a skip list.
//!
//! The list keeps entries (a totally ordered key with an associated payload)
//! in ascending key order across several levels of forward links, so that
//! insertion, point lookup and ordered forward iteration need no global
//! rebalancing. Nodes live in an arena and refer to each other by index.

pub mod linkedlist_skiplist;
pub mod skiplist;
