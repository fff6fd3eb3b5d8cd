//! Generic algorithms with verified contracts: a palindrome index over a
//! sequence, a prefix tree, and a binary heap.
pub mod binary_heap;
pub mod string;
