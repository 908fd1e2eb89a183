//! A directory-tree listing engine: a flat, arbitrarily ordered stream of
//! path/kind entries is turned into a hierarchical arena of nodes with
//! stable integer identities, synthesized intermediate directories, and
//! insertion-ordered child maps.

pub mod child_map;
pub mod file_tree;
pub mod model;
pub mod paths;
pub mod props;
pub mod storage;
