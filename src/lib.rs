//! Binary-search bounds over sorted slices, an insertion-ordered multiset
//! with rank and order-statistic queries, prefix sums and a prefix tree.
pub mod bounds;
pub mod cumsum;
pub mod multi_set;
pub mod trie;
