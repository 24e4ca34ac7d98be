//! An array-backed segment tree over a fixed-size sequence, generic in the
//! aggregation: point assignment and associative range-aggregate queries
//! (sum, leftmost value, and any other monoid) in O(log n) time.

pub mod monoid;
pub mod segtree;
