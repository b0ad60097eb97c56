//! Conversion of a sparse adjacency matrix from coordinate (COO) form into a
//! compact pointer-indexed form (CSR: row-grouped, or CSC: column-grouped),
//! together with a borrowed read-only view for neighbor queries.
//!
//! The conversion sorts the edges by a linearized key (group coordinate times
//! the other dimension plus the paired coordinate), records the permutation it
//! applied, and derives the pointer array with a counting pass over the sorted
//! group keys.

mod counting;
mod error;
mod graph;
mod sorting;
mod storage;

pub use counting::count_lt;
pub use counting::lemma_count_lt_empty;
pub use counting::lemma_count_lt_multiset;
pub use counting::sorted;
pub use error::ConversionError;
pub use graph::degree_sum;
pub use graph::group_concat;
pub use graph::lemma_coverage;
pub use graph::lemma_degree_sum;
pub use graph::lemma_group_concat;
pub use graph::lemma_pointer_array_wf;
pub use graph::wf_ptrs;
pub use graph::CscGraph;
pub use graph::CsrGraph;
pub use graph::SparseGraph;
pub use storage::group_dim;
pub use storage::group_seq;
pub use storage::ind2ptr;
pub use storage::lemma_empty_conversion;
pub use storage::lin_key;
pub use storage::paired_dim;
pub use storage::paired_seq;
pub use storage::CooGraphStorage;
pub use storage::Csc;
pub use storage::CscGraphStorage;
pub use storage::Csr;
pub use storage::CsrGraphStorage;
pub use storage::Size;
pub use storage::SparseGraphStorage;
pub use storage::SparseGraphType;
pub use storage::SparseGraphTypeTrait;
