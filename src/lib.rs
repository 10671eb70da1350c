//! Coverage-guided synthesis of library API usage programs: include-tree
//! analysis of a library's headers, an energy-based schedule over its APIs,
//! fusion of generated programs into batched executables, and corpus
//! minimisation.
pub mod cntg;
pub mod config;
pub mod fuzzer;
pub mod header;
pub mod include_graph;
pub mod minimize;
pub mod request;
pub mod schedule;
pub mod seed_metas;
pub mod text;
