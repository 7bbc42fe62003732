//! Graphs whose edges keep their insertion position, and algorithms on them.

pub mod csr2;
pub mod search;

pub use csr2::scc2;
