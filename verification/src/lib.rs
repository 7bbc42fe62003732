//! Verified algorithms and data structures for competitive programming.

pub mod ops;
pub mod from_bytes;
pub mod input;
pub mod reader;
pub mod output;
pub mod gcd;
pub mod mint;
pub mod factorial;
pub mod floor_sum;
pub mod union_find;
pub mod bits;
pub mod sparse_table;
pub mod point;
pub mod kmp;
pub mod z_algorithm;
pub mod manacher;
pub mod suffix_array;
pub mod suffix_automaton;
pub mod graph;
pub mod fenwick;
pub mod union_find_with_potential;
pub mod rollback_union_find;
pub mod sorted_array;
pub mod rectangle;
pub mod disjoint_sparse_table;
pub mod compress;
pub mod radix_sort;
pub mod min_prime_factor;
pub mod segtree;
pub mod graph2;
pub mod hilbert_sort;
