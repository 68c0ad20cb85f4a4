//! A verified core for turning genomic fragment records into a sparse
//! feature-by-cell count matrix: region-list parsing and per-chromosome
//! feature indexing, cell-identifier lookup, overlap counting with the
//! double-count rule for fully contained fragments, and coordinate-format
//! serialization. Reading and writing the compressed files around this core
//! is left to the caller.

pub mod bytes;
pub mod cells;
pub mod counts;
pub mod fragments;
pub mod index;
pub mod matrix;
pub mod regions;
pub mod seqext;
