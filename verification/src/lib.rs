//! A metric-tree index for nearest-neighbour search over integer vectors,
//! kept in nodes behind a transactional store, together with a cached
//! constructor for regular expressions.

pub mod descent;
pub mod error;
pub mod grow;
pub mod insert;
pub mod kv;
pub mod laws;
pub mod mtree;
pub mod node;
pub mod outcome;
pub mod regex;
pub mod search;
pub mod split;
pub mod store;
pub mod tree;
pub mod vector;
