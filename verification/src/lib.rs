//! Static analysis of a flat collection of source and header files: a
//! directive-aware scanner, a file registry with stub synthesis, resolution of
//! inclusion relations into a graph, cycle detection, transitive closure, and
//! per-file cost metrics.

pub mod closure;
pub mod costs;
pub mod cycle;
pub mod graph;
pub mod lexer;
pub mod pipeline;
pub mod record;
pub mod registry;
pub mod sort;
pub mod text;
