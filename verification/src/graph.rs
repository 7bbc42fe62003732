//! Graphs in compressed sparse row form and algorithms on them.

pub mod csr2;
pub mod csr;
pub mod scc;
pub mod lca;
pub mod bipartite;
