//! An immutable, persistently versioned rope: a balanced tree of byte
//! chunks supporting O(log n) insertion, deletion and splitting, with
//! byte-chunk and line-oriented traversal.

pub mod rope;
