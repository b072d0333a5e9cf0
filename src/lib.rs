//! A prefix tree over keys made of characters, with verified insertion,
//! lookup, exact and whole-subtree deletion, counting and ordered listing.

pub mod format;
pub mod label;
pub mod tree;
pub mod trie;
